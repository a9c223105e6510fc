//! The iterations of a run.
use vstd::prelude::*;

use crate::bobyqb::course::alternative_tried;
use crate::bobyqb::course::asked;
use crate::bobyqb::course::base_moved;
use crate::bobyqb::course::begun;
use crate::bobyqb::course::carried_over;
use crate::bobyqb::course::chosen;
use crate::bobyqb::course::farthest;
use crate::bobyqb::course::geometry_radius;
use crate::bobyqb::course::goes_on;
use crate::bobyqb::course::improved;
use crate::bobyqb::course::improvement_damaged;
use crate::bobyqb::course::improvement_of;
use crate::bobyqb::course::improvement_tried;
use crate::bobyqb::course::improving_step;
use crate::bobyqb::course::increment;
use crate::bobyqb::course::iterated;
use crate::bobyqb::course::iteration_limit;
use crate::bobyqb::course::iterations;
use crate::bobyqb::course::judged;
use crate::bobyqb::course::lagrange_values;
use crate::bobyqb::course::last_step;
use crate::bobyqb::course::model_accurate;
use crate::bobyqb::course::no_record;
use crate::bobyqb::course::point_at;
use crate::bobyqb::course::point_replaced;
use crate::bobyqb::course::rebased;
use crate::bobyqb::course::refilled;
use crate::bobyqb::course::rescued;
use crate::bobyqb::course::set_close;
use crate::bobyqb::course::settled_down;
use crate::bobyqb::course::sharpened;
use crate::bobyqb::course::shortened;
use crate::bobyqb::course::snap_factor;
use crate::bobyqb::course::snapped;
use crate::bobyqb::course::solved;
use crate::bobyqb::course::spread;
use crate::bobyqb::course::step_denominators;
use crate::bobyqb::course::step_fails;
use crate::bobyqb::course::stepped;
use crate::bobyqb::course::subproblem;
use crate::bobyqb::course::told;
use crate::bobyqb::course::trial;
use crate::bobyqb::course::trial_damaged;
use crate::bobyqb::course::trial_placed;
use crate::bobyqb::course::tried;
use crate::bobyqb::course::value_from;
use crate::bobyqb::course::wants_geometry;
use crate::bobyqb::course::wants_reduction;
use crate::bobyqb::course::Asked;
use crate::bobyqb::course::Oracle;
use crate::bobyqb::course::Record;
use crate::bobyqb::course::Run;
use crate::bobyqb::course::Settings;
use crate::bobyqb::course::Task;
use crate::bobyqb::errbd;
use crate::bobyqb::kernels::improved_kernels;
use crate::bobyqb::kernels::iterated_kernels;
use crate::bobyqb::kernels::iterations_kernels;
use crate::bobyqb::kernels::placing_kernels;
use crate::bobyqb::kernels::replacing_kernels;
use crate::bobyqb::kernels::settled_kernels;
use crate::bobyqb::kernels::solved_kernels;
use crate::bobyqb::kernels::spends;
use crate::bobyqb::kernels::trial_kernels;
use crate::bobyqb::kernels::tried_kernels;
use crate::bobyqb::kernels::weighed;
use crate::bobyqb::progress::answered;
use crate::bobyqb::progress::ask;
use crate::bobyqb::progress::evaluate_step;
use crate::bobyqb::progress::good_bounds;
use crate::bobyqb::progress::serves;
use crate::bobyqb::progress::Progress;
use crate::bobyqb::progress::Work;
use crate::bobyqb::redrat;
use crate::bobyqb::redrho;
use crate::bobyqb::shiftbase;
use crate::bobyqb::start::begin;
use crate::consts::half;
use crate::consts::one;
use crate::consts::one_and_half;
use crate::consts::reduction_floor;
use crate::consts::ten;
use crate::consts::tenth;
use crate::consts::thousand;
use crate::consts::three_quarters;
use crate::consts::trtol;
use crate::consts::zero;
use crate::consts::DAMAGING_ROUNDING;
use crate::consts::INFO_DFT;
use crate::consts::MAXFUN_REACHED;
use crate::consts::NAN_INF_MODEL;
use crate::consts::SMALL_TR_RADIUS;
use crate::float::order::max_of;
use crate::float::order::min_of;
use crate::float::F64;
use crate::geometry::geometry_count;
use crate::geometry::geometry_kernels;
use crate::geometry::geostep;
use crate::geometry::setdrop_tr_with;
use crate::geometry::squared_distances_into;
use crate::geometry::Improvement;
use crate::linalg::inprod;
use crate::linalg::norm;
use crate::model::Model;
use crate::model::ModelView;
use crate::powalg::beta_of;
use crate::powalg::calvlag_and_den_into;
use crate::powalg::counters::bumped;
use crate::powalg::counters::lemma_tallied;
use crate::powalg::counters::lemma_total_bumped;
use crate::powalg::counters::tallied;
use crate::powalg::quadinc;
use crate::rescue::lemma_refill_advances;
use crate::rescue::refill_seek;
use crate::rescue::refill_update;
use crate::rescue::refill_value;
use crate::rescue::rescue_begin;
use crate::rescue::rescue_finish;
use crate::rescue::rescue_finished;
use crate::rescue::rescuing_in;
use crate::rescue::squares;
use crate::rescue::Rescuing;
use crate::trustregion::least_curvature;
use crate::trustregion::trrad;
use crate::trustregion::trsbox;
use crate::update::tryqalt;
use crate::update::updateh;
use crate::update::updateq;
use crate::update::updatexf;
use crate::util::checkexit;
use crate::util::evaluable;
use crate::util::in_box;
use crate::util::lemma_placed_in_box;
use crate::util::xinbd_into;
use crate::vector::argmax;
use crate::vector::copy;
use crate::vector::first_max;
use crate::vector::has_above;
use crate::vector::is_all_at_most;
use crate::vector::sum_abs;
use crate::vector::zeros;

verus! {

/// Evaluates the provisional points of a rescue, until an exit test applies.
fn refill<F: FnMut(&[F64]) -> F64>(
    calfun: &mut F,
    set: &Settings,
    xl: &[F64],
    xu: &[F64],
    st: &mut Progress,
    w: &mut Work,
    log: &mut Ghost<Seq<Asked>>,
) -> (info: i32)
    requires
        old(st).fits(xl@.len(), old(st).m@.xpt.len()),
        old(w).fits(xl@.len(), old(st).m@.xpt.len()),
        old(w).rescue.kpt <= old(st).m@.xpt.len(),
        good_bounds(xl@, xu@),
        old(st).nf == old(log)@.len(),
        old(st).nf < set.maxfun,
        serves(*old(calfun), xl@, xu@, old(log)@),
    ensures
        *final(calfun) == *old(calfun),
        final(st).fits(xl@.len(), old(st).m@.xpt.len()),
        final(w).fits(xl@.len(), old(st).m@.xpt.len()),
        final(w).kernel_calls() == old(w).kernel_calls(),
        final(st).nf == final(log)@.len(),
        final(st).nf <= set.maxfun,
        info == INFO_DFT ==> final(st).nf < set.maxfun,
        *final(st) == (Progress { m: final(st).m, nf: final(st).nf, ..*old(st) }),
        serves(*old(calfun), xl@, xu@, final(log)@),
        goes_on(old(log)@, final(log)@),
        forall|o: Oracle| #[trigger]
            told(o, final(log)@) ==> {
                let t = Task { set: *set, xl: xl@, xu: xu@ };
                let s = old(st).run(old(log)@);
                (final(st).m@, final(log)@, info) == refilled(
                    t,
                    rescuing_in(s.m, old(w).rescue),
                    s.delta,
                    s.log,
                    o,
                )
            },
{
    proof {
        reveal(Work::fits);
    }
    let ghost t: Task = Task { set: *set, xl: xl@, xu: xu@ };
    let ghost s: Run = st.run(log@);
    let ghost r0: Rescuing = rescuing_in(st.m@, w.rescue);
    let ghost fun: F = *calfun;
    let ghost n: nat = xl@.len();
    let npt: usize = st.m.xpt.ncols();
    let delta: F64 = st.delta;
    let mut info: i32 = INFO_DFT;
    let mut going: bool = true;
    while going
        invariant
            t == (Task { set: *set, xl: xl@, xu: xu@ }),
            n == xl@.len(),
            *calfun == fun,
            delta == s.delta,
            st.fits(n, npt as nat),
            w.fits(n, npt as nat),
            w.kernel_calls() == old(w).kernel_calls(),
            w.rescue.kpt <= npt,
            good_bounds(xl@, xu@),
            st.nf == log@.len(),
            st.nf <= set.maxfun,
            info == INFO_DFT ==> st.nf < set.maxfun,
            going ==> info == INFO_DFT,
            serves(fun, xl@, xu@, log@),
            s.log == old(log)@,
            goes_on(s.log, log@),
            *st == (Progress { m: st.m, nf: st.nf, ..*old(st) }),
            forall|o: Oracle| #[trigger]
                told(o, log@) ==> refilled(t, r0, delta, s.log, o) == (if going {
                    refilled(t, rescuing_in(st.m@, w.rescue), delta, log@, o)
                } else {
                    (rescue_finished(rescuing_in(st.m@, w.rescue)), log@, info)
                }),
        decreases
                npt - w.rescue.kpt,
                (if going {
                    1int
                } else {
                    0int
                }),
    {
        let ghost before: Rescuing = rescuing_in(st.m@, w.rescue);
        let ghost log0: Seq<Asked> = log@;
        proof {
            reveal(Work::fits);
            lemma_refill_advances(before, delta);
        }
        if refill_seek(delta, &mut st.m, &mut w.rescue) {
            let ghost r1: Rescuing = rescuing_in(st.m@, w.rescue);
            let k: usize = w.rescue.kpt;
            assert(st.m.xpt@[k as int].len() == n);
            xinbd_into(
                &st.m.xbase,
                st.m.xpt.col(k),
                xl,
                xu,
                &st.m.sl,
                &st.m.su,
                &mut w.xnew,
            );
            proof {
                lemma_placed_in_box(st.m@.xbase, st.m@.xpt[k as int], xl@, xu@, st.m@.sl, st.m@.su);
            }
            let f: F64 = ask(
                calfun,
                &w.xnew,
                &mut w.xmod,
                Ghost(xl@),
                Ghost(xu@),
                log,
            );
            st.nf = st.nf + 1;
            refill_value(f, &mut st.m, &w.rescue);
            let ghost r2: Rescuing = rescuing_in(st.m@, w.rescue);
            info = checkexit(set.maxfun, st.nf, f, set.ftarget, &w.xnew);
            if info != INFO_DFT {
                going = false;
            } else {
                refill_update(f, &mut st.m, &mut w.rescue);
            }
            proof {
                assert forall|o: Oracle| #[trigger] told(o, log@) implies refilled(
                    t,
                    r0,
                    delta,
                    s.log,
                    o,
                ) == (if going {
                    refilled(t, rescuing_in(st.m@, w.rescue), delta, log@, o)
                } else {
                    (rescue_finished(rescuing_in(st.m@, w.rescue)), log@, info)
                }) by {
                    assert(told(o, log0));
                    assert(w.xnew@ == point_at(t, r1.m, r1.m.xpt[k as int]));
                    assert(f == value_from(log0, w.xnew@, o));
                    assert(log@ == asked(log0, w.xnew@, o));
                }
            }
        } else {
            going = false;
        }
    }
    rescue_finish(&mut st.m, &mut w.rescue);
    info
}

/// Rescues the interpolation set from damage by rounding.
fn rescue<F: FnMut(&[F64]) -> F64>(
    calfun: &mut F,
    set: &Settings,
    xl: &[F64],
    xu: &[F64],
    st: &mut Progress,
    w: &mut Work,
    log: &mut Ghost<Seq<Asked>>,
)
    requires
        old(st).fits(xl@.len(), old(st).m@.xpt.len()),
        old(w).fits(xl@.len(), old(st).m@.xpt.len()),
        good_bounds(xl@, xu@),
        !old(st).ended,
        old(st).tracks(Task { set: *set, xl: xl@, xu: xu@ }, old(log)@),
        serves(*old(calfun), xl@, xu@, old(log)@),
    ensures
        *final(calfun) == *old(calfun),
        final(st).fits(xl@.len(), old(st).m@.xpt.len()),
        final(w).fits(xl@.len(), old(st).m@.xpt.len()),
        final(w).kernel_calls() == old(w).kernel_calls(),
        final(st).tracks(Task { set: *set, xl: xl@, xu: xu@ }, final(log)@),
        serves(*old(calfun), xl@, xu@, final(log)@),
        goes_on(old(log)@, final(log)@),
        forall|o: Oracle| #[trigger]
            told(o, final(log)@) ==> final(st).run(final(log)@) == rescued(
                Task { set: *set, xl: xl@, xu: xu@ },
                old(st).run(old(log)@),
                o,
            ),
{
    proof {
        reveal(Work::fits);
        reveal(rescued);
    }
    let code: i32 = rescue_begin(
        set.maxfun,
        st.nf,
        st.delta,
        xl,
        xu,
        &mut st.m,
        &mut w.rescue,
    );
    if code != INFO_DFT {
        st.info = MAXFUN_REACHED;
        st.ended = true;
    } else {
        let info: i32 = refill(calfun, set, xl, xu, st, w, log);
        if info != INFO_DFT {
            st.info = info;
            st.ended = true;
        } else {
            st.rescued = true;
            st.dnorm_rec = no_record();
            st.moderr_rec = no_record();
        }
    }
}

/// The radius, or the resolution where the radius is not much larger.
fn snap(set: &Settings, delta: F64, rho: F64, t: Ghost<Task>) -> (r: F64)
    requires
        t@.set == *set,
    ensures
        r == snapped(t@, delta, rho),
{
    let gamma3: F64 = one().max((three_quarters() * set.gamma2).min(one_and_half()));
    assert(gamma3 == snap_factor(set.gamma2));
    if delta.le(gamma3 * rho) {
        rho
    } else {
        delta
    }
}

/// The change of the model by the last step.
fn step_increment(st: &Progress, w: &mut Work) -> (r: F64)
    requires
        st.fits(st.d@.len(), st.m@.xpt.len()),
        old(w).fits(st.d@.len(), st.m@.xpt.len()),
    ensures
        r == increment(st.m@, st.d@),
        final(w).fits(st.d@.len(), st.m@.xpt.len()),
        final(w).kernel_calls() == old(w).kernel_calls(),
{
    proof {
        reveal(Work::fits);
    }
    quadinc(
        &st.d,
        &st.m.xpt,
        &st.m.gopt,
        &st.m.pq,
        &st.m.hq,
        &mut w.dxpt,
        &mut w.pqdxpt,
        &mut w.hqd,
    )
}

/// Makes the trial step; its least curvature.
fn make_step(st: &mut Progress, w: &mut Work, log: Ghost<Seq<Asked>>) -> (crvmin: F64)
    requires
        old(st).fits(old(st).d@.len(), old(st).m@.xpt.len()),
        old(w).fits(old(st).d@.len(), old(st).m@.xpt.len()),
    ensures
        final(st).fits(old(st).d@.len(), old(st).m@.xpt.len()),
        final(w).fits(old(st).d@.len(), old(st).m@.xpt.len()),
        final(w).kernel_calls() == old(w).kernel_calls(),
        final(st).run(log@) == stepped(old(st).run(log@)),
        *final(st) == (Progress {
            d: final(st).d,
            dnorm: final(st).dnorm,
            shortd: final(st).shortd,
            ..*old(st)
        }),
        crvmin == least_curvature(subproblem(old(st).m@), old(st).delta),
{
    proof {
        reveal(Work::fits);
        reveal(stepped);
    }
    let kopt: usize = st.m.kopt;
    assert(st.m.xpt@[kopt as int].len() == st.d@.len());
    let crvmin: F64 = trsbox(
        st.delta,
        &st.m.gopt,
        &st.m.hq,
        &st.m.pq,
        &st.m.sl,
        &st.m.su,
        trtol(),
        st.m.xpt.col(kopt),
        &st.m.xpt,
        &mut st.d,
        &mut w.trial,
    );
    st.dnorm = st.delta.min(norm(&st.d));
    st.shortd = st.dnorm.le(half() * st.rho);
    crvmin
}

/// Shrinks the radius after a step that is not evaluated.
fn shorten(
    set: &Settings,
    st: &mut Progress,
    w: &mut Work,
    crvmin: F64,
    t: Ghost<Task>,
    log: Ghost<Seq<Asked>>,
)
    requires
        old(st).fits(old(st).d@.len(), old(st).m@.xpt.len()),
        old(w).fits(old(st).d@.len(), old(st).m@.xpt.len()),
        t@.set == *set,
    ensures
        final(st).fits(old(st).d@.len(), old(st).m@.xpt.len()),
        final(w).fits(old(st).d@.len(), old(st).m@.xpt.len()),
        final(w).kernel_calls() == old(w).kernel_calls(),
        final(st).run(log@) == shortened(t@, old(st).run(log@), crvmin),
        *final(st) == (Progress {
            delta: final(st).delta,
            ebound: final(st).ebound,
            ..*old(st)
        }),
{
    proof {
        reveal(Work::fits);
        reveal(shortened);
    }
    st.delta = snap(set, tenth() * st.delta, st.rho, t);
    let kopt: usize = st.m.kopt;
    assert(st.m.xpt@[kopt as int].len() == st.d@.len());
    let errors: [F64; 2] = [st.moderr_rec.earlier, st.moderr_rec.last];
    let recent: &[F64] = vstd::array::array_as_slice(&errors);
    assert(recent@ =~= seq![st.moderr_rec.earlier, st.moderr_rec.last]);
    st.ebound = errbd(
        crvmin,
        &st.d,
        &st.m.gopt,
        &st.m.hq,
        recent,
        &st.m.pq,
        st.rho,
        &st.m.sl,
        &st.m.su,
        st.m.xpt.col(kopt),
        &st.m.xpt,
        &mut w.error,
    );
}

/// Takes an evaluated step into the records.
fn record(st: &mut Progress, dnorm: F64, moderr: F64, log: Ghost<Seq<Asked>>)
    requires
        old(st).fits(old(st).d@.len(), old(st).m@.xpt.len()),
    ensures
        final(st).fits(old(st).d@.len(), old(st).m@.xpt.len()),
        final(st).run(log@) == old(st).run(log@).with_record(dnorm, moderr),
        *final(st) == (Progress {
            dnorm_rec: final(st).dnorm_rec,
            moderr_rec: final(st).moderr_rec,
            ..*old(st)
        }),
{
    st.dnorm_rec = Record { earlier: st.dnorm_rec.last, last: dnorm };
    st.moderr_rec = Record { earlier: st.moderr_rec.last, last: moderr };
}

/// Decides on the radius after a trial step for which the model predicted the reduction `qred`.
fn judge(set: &Settings, st: &mut Progress, qred: F64, t: Ghost<Task>, log: Ghost<Seq<Asked>>)
    requires
        old(st).fits(old(st).d@.len(), old(st).m@.xpt.len()),
        t@.set == *set,
    ensures
        final(st).fits(old(st).d@.len(), old(st).m@.xpt.len()),
        final(st).run(log@) == judged(t@, old(st).run(log@), qred),
        *final(st) == (Progress {
            ratio: final(st).ratio,
            delta: final(st).delta,
            dnorm_rec: final(st).dnorm_rec,
            moderr_rec: final(st).moderr_rec,
            ..*old(st)
        }),
{
    proof {
        reveal(judged);
    }
    let fopt: F64 = st.m.fval[st.m.kopt];
    record(st, st.dnorm, st.f - fopt + qred, log);
    st.ratio = redrat(fopt - st.f, qred, set.eta1);
    let delta: F64 = trrad(
        st.delta,
        st.dnorm,
        set.eta1,
        set.eta2,
        set.gamma1,
        set.gamma2,
        st.ratio,
    );
    st.delta = snap(set, delta, st.rho, t);
}

/// Computes the Lagrange values and denominators at the last step; its beta.
fn weigh(st: &Progress, w: &mut Work) -> (beta: F64)
    requires
        st.fits(st.d@.len(), st.m@.xpt.len()),
        old(w).fits(st.d@.len(), st.m@.xpt.len()),
    ensures
        final(w).fits(st.d@.len(), st.m@.xpt.len()),
        final(w).kernel_calls() == tallied(old(w).kernel_calls(), 1),
        final(w).vlag@ == lagrange_values(st.m@, st.d@),
        final(w).den@ == step_denominators(st.m@, st.d@),
        beta == beta_of(st.m@.kopt as int, st.m@.bmat, st.d@, st.m@.xpt, st.m@.zmat),
{
    proof {
        reveal(Work::fits);
        lemma_total_bumped(w.cal.count, w.geometry.cal.count, w.update.cal.count);
    }
    calvlag_and_den_into(
        st.m.kopt,
        &st.m.bmat,
        &st.d,
        &st.m.xpt,
        &st.m.zmat,
        &mut w.cal,
        &mut w.vlag,
        &mut w.den,
    )
}

/// The largest square of the first `npt` entries.
fn largest_square(x: &[F64], npt: usize) -> (r: F64)
    requires
        0 < npt <= x@.len(),
    ensures
        r == squares(x@, npt as nat)[first_max(squares(x@, npt as nat), npt as nat)],
{
    let ghost sq: Seq<F64> = squares(x@, npt as nat);
    let mut best: F64 = x[0] * x[0];
    for k in 1..npt
        invariant
            npt <= x@.len(),
            sq == squares(x@, npt as nat),
            0 <= first_max(sq, k as nat) < k,
            best == sq[first_max(sq, k as nat)],
    {
        let v: F64 = x[k] * x[k];
        if v.gt(best) {
            best = v;
        }
    }
    best
}

/// Whether the denominators at the trial step are damaged by rounding.
fn is_trial_damaged(w: &Work, npt: usize, m: Ghost<ModelView>, d: Ghost<Seq<F64>>) -> (r: bool)
    requires
        w.fits(d@.len(), npt as nat),
        npt == m@.xpt.len(),
        npt > 0,
        w.vlag@ == lagrange_values(m@, d@),
        w.den@ == step_denominators(m@, d@),
    ensures
        r == trial_damaged(m@, d@),
{
    proof {
        reveal(Work::fits);
    }
    let vmax: F64 = largest_square(&w.vlag, npt);
    !(sum_abs(&w.vlag).is_finite() && has_above(&w.den, vmax))
}

/// Replaces point `k` by the one at the last step, where the model is wrong by `moderr`.
/// `known` is the beta of the step, where `w` holds its Lagrange values.
fn replace_point(
    k: usize,
    moderr: F64,
    ximproved: bool,
    known: Option<F64>,
    st: &mut Progress,
    w: &mut Work,
)
    requires
        old(st).fits(old(st).d@.len(), old(st).m@.xpt.len()),
        old(w).fits(old(st).d@.len(), old(st).m@.xpt.len()),
        k < old(st).m@.xpt.len(),
        known matches Some(b) ==> {
            let m = old(st).m@;
            &&& old(w).vlag@ == lagrange_values(m, old(st).d@)
            &&& b == beta_of(m.kopt as int, m.bmat, old(st).d@, m.xpt, m.zmat)
        },
    ensures
        final(st).fits(old(st).d@.len(), old(st).m@.xpt.len()),
        final(w).fits(old(st).d@.len(), old(st).m@.xpt.len()),
        final(w).kernel_calls() == (if known is Some {
            old(w).kernel_calls()
        } else {
            tallied(old(w).kernel_calls(), 2)
        }),
        final(st).m@ == point_replaced(
            old(st).m@,
            k,
            old(st).d@,
            old(st).f,
            moderr,
            ximproved,
        ),
        *final(st) == (Progress { m: final(st).m, ..*old(st) }),
{
    proof {
        reveal(Work::fits);
        reveal(point_replaced);
        lemma_total_bumped(w.cal.count, w.geometry.cal.count, w.update.cal.count);
        lemma_total_bumped(w.cal.count, w.geometry.cal.count, bumped(w.update.cal.count));
        lemma_tallied(w.kernel_calls(), 1, 1);
    }
    let n: usize = st.m.xpt.nrows();
    let kopt: usize = st.m.kopt;
    let ghost m0: ModelView = st.m@;
    let ghost d: Seq<F64> = st.d@;
    assert(st.m.xpt@[kopt as int].len() == n && st.m.xpt@[k as int].len() == n);
    copy(&mut w.xdrop, st.m.xpt.col(k));
    copy(&mut w.xosav, st.m.xpt.col(kopt));
    let precomputed: Option<(&[F64], F64)> = match known {
        Some(b) => Some((w.vlag.as_slice(), b)),
        None => None,
    };
    let _h: i32 = updateh(
        Some(k),
        kopt,
        &st.d,
        &st.m.xpt,
        &mut st.m.bmat,
        &mut st.m.zmat,
        &mut w.update,
        precomputed,
    );
    let ghost calls: usize = w.kernel_calls();
    let ghost xnew: Seq<F64> = Seq::new(
        n as nat,
        |i: int| max_of(m0.sl[i], min_of(m0.su[i], m0.xopt()[i] + d[i])),
    );
    for i in 0..n
        invariant
            w.xnew@.len() == n,
            w.xosav@.len() == n,
            w.xosav@ == m0.xopt(),
            st.m.sl@ == m0.sl,
            st.m.su@ == m0.su,
            m0.sl.len() == n,
            m0.su.len() == n,
            st.d@ == d,
            d.len() == n,
            w.fits(n as nat, m0.xpt.len()),
            w.kernel_calls() == calls,
            w.xdrop@ == m0.xpt[k as int],
            xnew == Seq::new(
                n as nat,
                |i: int| max_of(m0.sl[i], min_of(m0.su[i], m0.xopt()[i] + d[i])),
            ),
            forall|j: int| 0 <= j < i ==> w.xnew@[j] == xnew[j],
    {
        proof {
            reveal(Work::fits);
        }
        w.xnew[i] = st.m.sl[i].max(st.m.su[i].min(w.xosav[i] + st.d[i]));
    }
    assert(w.xnew@ =~= xnew);
    updatexf(
        Some(k),
        ximproved,
        st.f,
        &w.xnew,
        &mut st.m.kopt,
        &mut st.m.fval,
        &mut st.m.xpt,
    );
    updateq(
        Some(k),
        ximproved,
        &st.m.bmat,
        &st.d,
        moderr,
        &w.xdrop,
        &w.xosav,
        &st.m.xpt,
        &st.m.zmat,
        &mut st.m.gopt,
        &mut st.m.hq,
        &mut st.m.pq,
        &mut w.update,
    );
}

/// Exchanges the model for the alternative one after three tests in a row that favour it.
fn try_alternative(st: &mut Progress, w: &mut Work)
    requires
        old(st).fits(old(st).d@.len(), old(st).m@.xpt.len()),
        old(w).fits(old(st).d@.len(), old(st).m@.xpt.len()),
    ensures
        final(st).fits(old(st).d@.len(), old(st).m@.xpt.len()),
        final(w).fits(old(st).d@.len(), old(st).m@.xpt.len()),
        final(w).kernel_calls() == old(w).kernel_calls(),
        (final(st).m@, final(st).itest) == alternative_tried(
            old(st).m@,
            old(st).ratio,
            old(st).itest,
        ),
        *final(st) == (Progress { m: final(st).m, itest: final(st).itest, ..*old(st) }),
{
    proof {
        reveal(Work::fits);
        reveal(alternative_tried);
    }
    let n: usize = st.m.xpt.nrows();
    let npt: usize = st.m.xpt.ncols();
    let kopt: usize = st.m.kopt;
    let fopt: F64 = st.m.fval[kopt];
    let ghost m0: ModelView = st.m@;
    let ghost values: Seq<F64> = Seq::new(npt as nat, |k: int| m0.fval[k] - m0.fopt());
    for k in 0..npt
        invariant
            st.m.fval@ == m0.fval,
            m0.fval.len() == npt,
            fopt == m0.fopt(),
            w.fits(n as nat, npt as nat),
            w.kernel_calls() == old(w).kernel_calls(),
            values == Seq::new(npt as nat, |k: int| m0.fval[k] - m0.fopt()),
            forall|j: int| 0 <= j < k ==> w.fval_shift@[j] == values[j],
    {
        proof {
            reveal(Work::fits);
        }
        w.fval_shift[k] = st.m.fval[k] - fopt;
    }
    assert(w.fval_shift@ =~= values);
    assert(st.m.xpt@[kopt as int].len() == n);
    copy(&mut w.xosav, st.m.xpt.col(kopt));
    tryqalt(
        &st.m.bmat,
        &w.fval_shift,
        st.ratio,
        &st.m.sl,
        &st.m.su,
        &w.xosav,
        &st.m.xpt,
        &st.m.zmat,
        &mut st.itest,
        &mut st.m.gopt,
        &mut st.m.hq,
        &mut st.m.pq,
        &mut w.update,
    );
}

/// Ends the iterations if a coefficient of the model is not finite.
fn check_model(st: &mut Progress, t: Ghost<Task>, log: Ghost<Seq<Asked>>)
    requires
        old(st).fits(old(st).d@.len(), old(st).m@.xpt.len()),
        !old(st).ended,
        old(st).tracks(t@, log@),
    ensures
        final(st).fits(old(st).d@.len(), old(st).m@.xpt.len()),
        final(st).tracks(t@, log@),
        final(st).run(log@) == old(st).run(log@).checked(),
{
    if !st.m.is_usable() {
        st.info = NAN_INF_MODEL;
        st.ended = true;
    }
}

/// Takes the trial point into the set, where the model is wrong by `moderr` there.
/// `known` is the beta of the step, where `w` holds its Lagrange values and denominators.
fn place_trial(
    set: &Settings,
    st: &mut Progress,
    w: &mut Work,
    moderr: F64,
    known: Option<F64>,
    t: Ghost<Task>,
    log: Ghost<Seq<Asked>>,
)
    requires
        old(st).fits(old(st).d@.len(), old(st).m@.xpt.len()),
        old(w).fits(old(st).d@.len(), old(st).m@.xpt.len()),
        !old(st).ended,
        old(st).tracks(t@, log@),
        known matches Some(b) ==> {
            let m = old(st).m@;
            &&& old(w).vlag@ == lagrange_values(m, old(st).d@)
            &&& old(w).den@ == step_denominators(m, old(st).d@)
            &&& b == beta_of(m.kopt as int, m.bmat, old(st).d@, m.xpt, m.zmat)
        },
    ensures
        final(st).fits(old(st).d@.len(), old(st).m@.xpt.len()),
        final(w).fits(old(st).d@.len(), old(st).m@.xpt.len()),
        final(w).kernel_calls() == (if known is Some {
            old(w).kernel_calls()
        } else {
            tallied(
                old(w).kernel_calls(),
                placing_kernels(t@, old(st).run(log@), moderr),
            )
        }),
        final(st).tracks(t@, log@),
        final(st).run(log@) == trial_placed(t@, old(st).run(log@), moderr),
{
    proof {
        reveal(Work::fits);
        reveal(trial_placed);
        lemma_total_bumped(w.cal.count, w.geometry.cal.count, w.update.cal.count);
        lemma_tallied(w.kernel_calls(), 1, 2);
    }
    let ximproved: bool = st.f.lt(st.m.fval[st.m.kopt]);
    let den: Option<&[F64]> = match known {
        Some(_b) => Some(w.den.as_slice()),
        None => None,
    };
    let knew: Option<usize> = setdrop_tr_with(
        st.m.kopt,
        ximproved,
        &st.m.bmat,
        &st.d,
        st.rho,
        &st.m.xpt,
        &st.m.zmat,
        &mut w.geometry,
        den,
    );
    st.knew = knew;
    match knew {
        Some(k) => {
            replace_point(k, moderr, ximproved, known, st, w);
            try_alternative(st, w);
            check_model(st, t, log);
        },
        None => {},
    }
}

/// Takes the trial step over to the set after a rescue.
fn carry_over(st: &mut Progress, log: Ghost<Seq<Asked>>)
    requires
        old(st).fits(old(st).d@.len(), old(st).m@.xpt.len()),
    ensures
        final(st).fits(old(st).d@.len(), old(st).m@.xpt.len()),
        final(st).run(log@) == carried_over(old(st).run(log@)),
        *final(st) == (Progress { d: final(st).d, ..*old(st) }),
{
    proof {
        reveal(carried_over);
    }
    let n: usize = st.m.xpt.nrows();
    let kopt: usize = st.m.kopt;
    let ghost s: Run = st.run(log@);
    let ghost d: Seq<F64> = carried_over(s).d;
    assert(st.m.xpt@[kopt as int].len() == n);
    for i in 0..n
        invariant
            st.m.fits(n as nat, s.m.xpt.len()),
            st.d@.len() == n,
            s.d.len() == n,
            kopt == s.m.kopt,
            kopt < s.m.xpt.len(),
            st.m.xpt@[kopt as int].len() == n,
            *st == (Progress { d: st.d, ..*old(st) }),
            s == old(st).run(log@),
            d == carried_over(s).d,
            forall|j: int| 0 <= j < i ==> st.d@[j] == d[j],
            forall|j: int| i <= j < n ==> st.d@[j] == s.d[j],
    {
        proof {
            reveal(carried_over);
        }
        st.d[i] = st.m.sl[i].max(st.m.su[i].min(st.d[i])) - st.m.xpt.get(i, kopt);
    }
    assert(st.d@ =~= d);
}

/// Evaluates the trial step, for which the model predicts the reduction `qred`, and takes the
/// point into the set.
fn try_step<F: FnMut(&[F64]) -> F64>(
    calfun: &mut F,
    set: &Settings,
    xl: &[F64],
    xu: &[F64],
    qred: F64,
    st: &mut Progress,
    w: &mut Work,
    log: &mut Ghost<Seq<Asked>>,
)
    requires
        old(st).fits(xl@.len(), old(st).m@.xpt.len()),
        old(w).fits(xl@.len(), old(st).m@.xpt.len()),
        good_bounds(xl@, xu@),
        !old(st).ended,
        old(st).tracks(Task { set: *set, xl: xl@, xu: xu@ }, old(log)@),
        serves(*old(calfun), xl@, xu@, old(log)@),
    ensures
        *final(calfun) == *old(calfun),
        final(st).fits(xl@.len(), old(st).m@.xpt.len()),
        final(w).fits(xl@.len(), old(st).m@.xpt.len()),
        final(st).tracks(Task { set: *set, xl: xl@, xu: xu@ }, final(log)@),
        serves(*old(calfun), xl@, xu@, final(log)@),
        goes_on(old(log)@, final(log)@),
        forall|o: Oracle| #[trigger]
            told(o, final(log)@) ==> final(st).run(final(log)@) == tried(
                Task { set: *set, xl: xl@, xu: xu@ },
                old(st).run(old(log)@),
                qred,
                o,
            ),
        forall|o: Oracle| #[trigger]
            told(o, final(log)@) ==> final(w).kernel_calls() == tallied(
                old(w).kernel_calls(),
                tried_kernels(
                    Task { set: *set, xl: xl@, xu: xu@ },
                    old(st).run(old(log)@),
                    qred,
                    o,
                ),
            ),
{
    proof {
        reveal(tried);
        reveal(tried_kernels);
        lemma_tallied(w.kernel_calls(), 0, 0);
    }
    let ghost calls: usize = w.kernel_calls();
    let ghost t: Task = Task { set: *set, xl: xl@, xu: xu@ };
    let ghost s0: Run = st.run(log@);
    evaluate_step(calfun, set, xl, xu, st, w, log);
    st.rescued = false;
    let ghost log1: Seq<Asked> = log@;
    let info: i32 = checkexit(set.maxfun, st.nf, st.f, set.ftarget, &st.x);
    if info != INFO_DFT {
        st.info = info;
        st.ended = true;
        return;
    }
    judge(set, st, qred, Ghost(t), Ghost(log1));
    let ghost s2: Run = st.run(log1);
    let ximproved: bool = st.f.lt(st.m.fval[st.m.kopt]);
    let beta: F64 = weigh(st, w);
    let npt: usize = st.m.xpt.ncols();
    let damaged: bool = is_trial_damaged(w, npt, Ghost(st.m@), Ghost(st.d@));
    if ximproved && damaged {
        rescue(calfun, set, xl, xu, st, w, log);
        let ghost s3: Run = st.run(log@);
        if !st.ended {
            carry_over(st, Ghost(log@));
            let moderr: F64 = st.f - st.m.fval[st.m.kopt] - step_increment(st, w);
            proof {
                lemma_tallied(calls, 1, placing_kernels(t, st.run(log@), moderr));
            }
            place_trial(set, st, w, moderr, None, Ghost(t), Ghost(log@));
        }
        proof {
            assert forall|o: Oracle| #[trigger] told(o, log@) implies st.run(log@) == tried(
                t,
                s0,
                qred,
                o,
            ) by {
                assert(told(o, log1));
                assert(s3 == rescued(t, s2, o));
            }
            assert forall|o: Oracle| #[trigger] told(o, log@) implies w.kernel_calls() == tallied(
                calls,
                tried_kernels(t, s0, qred, o),
            ) by {
                assert(told(o, log1));
                assert(s2 == weighed(t, s0, qred, o));
                assert(s3 == rescued(t, s2, o));
            }
        }
    } else {
        let moderr: F64 = st.f - st.m.fval[st.m.kopt] + qred;
        place_trial(set, st, w, moderr, Some(beta), Ghost(t), Ghost(log@));
    }
}

/// The trust-region part of an iteration; whether the step was not worth an evaluation.
fn trial_part<F: FnMut(&[F64]) -> F64>(
    calfun: &mut F,
    set: &Settings,
    xl: &[F64],
    xu: &[F64],
    st: &mut Progress,
    w: &mut Work,
    log: &mut Ghost<Seq<Asked>>,
) -> (failed: bool)
    requires
        old(st).fits(xl@.len(), old(st).m@.xpt.len()),
        old(w).fits(xl@.len(), old(st).m@.xpt.len()),
        good_bounds(xl@, xu@),
        !old(st).ended,
        old(st).tracks(Task { set: *set, xl: xl@, xu: xu@ }, old(log)@),
        serves(*old(calfun), xl@, xu@, old(log)@),
    ensures
        *final(calfun) == *old(calfun),
        final(st).fits(xl@.len(), old(st).m@.xpt.len()),
        final(w).fits(xl@.len(), old(st).m@.xpt.len()),
        final(st).tracks(Task { set: *set, xl: xl@, xu: xu@ }, final(log)@),
        serves(*old(calfun), xl@, xu@, final(log)@),
        goes_on(old(log)@, final(log)@),
        failed == step_fails(stepped(old(st).run(old(log)@))),
        forall|o: Oracle| #[trigger]
            told(o, final(log)@) ==> final(st).run(final(log)@) == trial(
                Task { set: *set, xl: xl@, xu: xu@ },
                old(st).run(old(log)@),
                o,
            ),
        forall|o: Oracle| #[trigger]
            told(o, final(log)@) ==> final(w).kernel_calls() == tallied(
                old(w).kernel_calls(),
                trial_kernels(
                    Task { set: *set, xl: xl@, xu: xu@ },
                    old(st).run(old(log)@),
                    o,
                ),
            ),
{
    proof {
        reveal(trial);
        reveal(trial_kernels);
        lemma_tallied(w.kernel_calls(), 0, 0);
    }
    let ghost t: Task = Task { set: *set, xl: xl@, xu: xu@ };
    let crvmin: F64 = make_step(st, w, Ghost(log@));
    let qred: F64 = step_increment(st, w).negated();
    let failed: bool = !qred.gt(reduction_floor() * (st.rho * st.rho));
    if st.shortd || failed {
        shorten(set, st, w, crvmin, Ghost(t), Ghost(log@));
    } else {
        try_step(calfun, set, xl, xu, qred, st, w, log);
    }
    failed
}

/// Whether the recent models were accurate.
fn is_model_accurate(st: &Progress, log: Ghost<Seq<Asked>>) -> (r: bool)
    ensures
        r == model_accurate(st.run(log@)),
{
    st.moderr_rec.earlier.abs().le(st.ebound) && st.moderr_rec.last.abs().le(st.ebound)
        && st.dnorm_rec.earlier.le(st.rho) && st.dnorm_rec.last.le(st.rho)
}

/// Evaluates the geometry step for point `k`, and takes the point into the set.
fn try_improvement<F: FnMut(&[F64]) -> F64>(
    calfun: &mut F,
    set: &Settings,
    xl: &[F64],
    xu: &[F64],
    k: usize,
    delbar: F64,
    st: &mut Progress,
    w: &mut Work,
    log: &mut Ghost<Seq<Asked>>,
)
    requires
        old(st).fits(xl@.len(), old(st).m@.xpt.len()),
        old(w).fits(xl@.len(), old(st).m@.xpt.len()),
        k < old(st).m@.xpt.len(),
        good_bounds(xl@, xu@),
        !old(st).ended,
        old(st).tracks(Task { set: *set, xl: xl@, xu: xu@ }, old(log)@),
        serves(*old(calfun), xl@, xu@, old(log)@),
    ensures
        *final(calfun) == *old(calfun),
        final(st).fits(xl@.len(), old(st).m@.xpt.len()),
        final(w).fits(xl@.len(), old(st).m@.xpt.len()),
        final(st).tracks(Task { set: *set, xl: xl@, xu: xu@ }, final(log)@),
        serves(*old(calfun), xl@, xu@, final(log)@),
        goes_on(old(log)@, final(log)@),
        forall|o: Oracle| #[trigger]
            told(o, final(log)@) ==> final(st).run(final(log)@) == improvement_tried(
                Task { set: *set, xl: xl@, xu: xu@ },
                old(st).run(old(log)@),
                k as int,
                delbar,
                o,
            ),
        forall|o: Oracle| #[trigger]
            told(o, final(log)@) ==> final(w).kernel_calls() == tallied(
                old(w).kernel_calls(),
                replacing_kernels(
                    Task { set: *set, xl: xl@, xu: xu@ },
                    old(st).run(old(log)@),
                    o,
                ),
            ),
{
    proof {
        reveal(improvement_tried);
        lemma_tallied(w.kernel_calls(), 0, 0);
    }
    evaluate_step(calfun, set, xl, xu, st, w, log);
    st.rescued = false;
    let info: i32 = checkexit(set.maxfun, st.nf, st.f, set.ftarget, &st.x);
    if info != INFO_DFT {
        st.info = info;
        st.ended = true;
        return;
    }
    let dnorm: F64 = delbar.min(norm(&st.d));
    let fopt: F64 = st.m.fval[st.m.kopt];
    let moderr: F64 = st.f - fopt - step_increment(st, w);
    let ximproved: bool = st.f.lt(fopt);
    replace_point(k, moderr, ximproved, None, st, w);
    st.dnorm = dnorm;
    record(st, dnorm, moderr, Ghost(log@));
    check_model(st, Ghost(Task { set: *set, xl: xl@, xu: xu@ }), Ghost(log@));
}

/// The evaluations of a geometry step are added to the total.
proof fn lemma_geometry_tallied(a: Work, b: Work, g: Improvement)
    requires
        b.geometry.cal.count == geometry_count(g, a.geometry.cal.count),
        b.cal.count == a.cal.count,
        b.update.cal.count == a.update.cal.count,
    ensures
        b.kernel_calls() == tallied(a.kernel_calls(), geometry_kernels(g)),
{
    let c = a.geometry.cal.count;
    lemma_total_bumped(a.cal.count, c, a.update.cal.count);
    lemma_total_bumped(a.cal.count, bumped(c), a.update.cal.count);
    lemma_tallied(a.kernel_calls(), 1, 1);
}

/// Makes the geometry step; `w` holds the squared distances from the best point.  The point that
/// the step replaces, its radius, and whether its denominator is damaged by rounding.
fn make_improvement(st: &mut Progress, w: &mut Work, log: Ghost<Seq<Asked>>) -> (r: (
    usize,
    F64,
    bool,
))
    requires
        old(st).fits(old(st).d@.len(), old(st).m@.xpt.len()),
        old(w).fits(old(st).d@.len(), old(st).m@.xpt.len()),
        old(w).distsq@ == spread(old(st).m@),
    ensures
        final(st).fits(old(st).d@.len(), old(st).m@.xpt.len()),
        final(w).fits(old(st).d@.len(), old(st).m@.xpt.len()),
        final(w).kernel_calls() == tallied(
            old(w).kernel_calls(),
            geometry_kernels(improvement_of(old(st).run(log@))) + 1,
        ),
        final(st).run(log@) == (Run {
            d: improving_step(old(st).run(log@)),
            ..old(st).run(log@)
        }),
        *final(st) == (Progress { d: final(st).d, ..*old(st) }),
        r.0 < old(st).m@.xpt.len(),
        r.0 == farthest(old(st).m@),
        r.1 == geometry_radius(old(st).run(log@)),
        r.2 == improvement_damaged(
            old(st).m@,
            improving_step(old(st).run(log@)),
            farthest(old(st).m@),
        ),
{
    proof {
        reveal(Work::fits);
    }
    let ghost s0: Run = st.run(log@);
    let k: usize = argmax(&w.distsq);
    assert(k == farthest(st.m@));
    let delbar: F64 = (tenth() * w.distsq[k].sqrt()).min(st.delta).max(st.rho);
    assert(delbar == geometry_radius(s0));
    geostep(
        k,
        st.m.kopt,
        &st.m.bmat,
        delbar,
        &st.m.sl,
        &st.m.su,
        &st.m.xpt,
        &st.m.zmat,
        &mut st.d,
        &mut w.geometry,
    );
    assert(st.d@ == improving_step(s0));
    proof {
        lemma_geometry_tallied(*old(w), *w, improvement_of(s0));
        lemma_tallied(old(w).kernel_calls(), geometry_kernels(improvement_of(s0)), 1);
    }
    let _beta: F64 = weigh(st, w);
    let damaged: bool = !(sum_abs(&w.vlag).is_finite() && w.den[k].gt(
        half() * (w.vlag[k] * w.vlag[k]),
    ));
    assert(damaged == improvement_damaged(st.m@, st.d@, k as int));
    (k, delbar, damaged)
}

/// The geometry part of an iteration; `w` holds the squared distances from the best point.
fn improve<F: FnMut(&[F64]) -> F64>(
    calfun: &mut F,
    set: &Settings,
    xl: &[F64],
    xu: &[F64],
    st: &mut Progress,
    w: &mut Work,
    log: &mut Ghost<Seq<Asked>>,
)
    requires
        old(st).fits(xl@.len(), old(st).m@.xpt.len()),
        old(w).fits(xl@.len(), old(st).m@.xpt.len()),
        old(w).distsq@ == spread(old(st).m@),
        good_bounds(xl@, xu@),
        !old(st).ended,
        old(st).tracks(Task { set: *set, xl: xl@, xu: xu@ }, old(log)@),
        serves(*old(calfun), xl@, xu@, old(log)@),
    ensures
        *final(calfun) == *old(calfun),
        final(st).fits(xl@.len(), old(st).m@.xpt.len()),
        final(w).fits(xl@.len(), old(st).m@.xpt.len()),
        final(st).tracks(Task { set: *set, xl: xl@, xu: xu@ }, final(log)@),
        serves(*old(calfun), xl@, xu@, final(log)@),
        goes_on(old(log)@, final(log)@),
        forall|o: Oracle| #[trigger]
            told(o, final(log)@) ==> final(st).run(final(log)@) == improved(
                Task { set: *set, xl: xl@, xu: xu@ },
                old(st).run(old(log)@),
                o,
            ),
        forall|o: Oracle| #[trigger]
            told(o, final(log)@) ==> final(w).kernel_calls() == tallied(
                old(w).kernel_calls(),
                improved_kernels(
                    Task { set: *set, xl: xl@, xu: xu@ },
                    old(st).run(old(log)@),
                    o,
                ),
            ),
{
    proof {
        reveal(improved);
        reveal(improved_kernels);
    }
    let ghost t: Task = Task { set: *set, xl: xl@, xu: xu@ };
    let ghost s0: Run = st.run(log@);
    let ghost calls: usize = w.kernel_calls();
    let ghost spent: nat = geometry_kernels(improvement_of(s0)) + 1;
    let (k, delbar, damaged): (usize, F64, bool) = make_improvement(st, w, Ghost(log@));
    let ghost s1: Run = st.run(log@);
    if damaged {
        if st.rescued {
            st.info = DAMAGING_ROUNDING;
            st.ended = true;
        } else {
            rescue(calfun, set, xl, xu, st, w, log);
        }
    } else {
        try_improvement(calfun, set, xl, xu, k, delbar, st, w, log);
    }
    proof {
        assert forall|o: Oracle| #[trigger] told(o, log@) implies w.kernel_calls() == tallied(
            calls,
            improved_kernels(t, s0, o),
        ) by {
            lemma_tallied(calls, spent, replacing_kernels(t, s1, o));
        }
    }
}

/// Reduces the resolution, or ends the iterations where it is the final one.
fn sharpen(set: &Settings, st: &mut Progress, t: Ghost<Task>, log: Ghost<Seq<Asked>>)
    requires
        old(st).fits(old(st).d@.len(), old(st).m@.xpt.len()),
        !old(st).ended,
        old(st).tracks(t@, log@),
        t@.set == *set,
    ensures
        final(st).fits(old(st).d@.len(), old(st).m@.xpt.len()),
        final(st).tracks(t@, log@),
        final(st).run(log@) == sharpened(t@, old(st).run(log@)),
{
    proof {
        reveal(sharpened);
    }
    if st.rho.le(set.rhoend) {
        st.info = SMALL_TR_RADIUS;
        st.ended = true;
    } else {
        let rho: F64 = redrho(st.rho, set.rhoend);
        st.delta = (half() * st.rho).max(rho);
        st.rho = rho;
        st.dnorm_rec = no_record();
        st.moderr_rec = no_record();
    }
}

/// Moves the base point to the best point.
fn move_base(xl: &[F64], xu: &[F64], m: &mut Model, w: &mut Work, t: Ghost<Task>)
    requires
        old(m).fits(xl@.len(), old(m)@.xpt.len()),
        xu@.len() == xl@.len(),
        old(w).fits(xl@.len(), old(m)@.xpt.len()),
        t@.xl == xl@,
        t@.xu == xu@,
    ensures
        final(m).fits(xl@.len(), old(m)@.xpt.len()),
        final(w).fits(xl@.len(), old(m)@.xpt.len()),
        final(w).kernel_calls() == old(w).kernel_calls(),
        final(m)@ == base_moved(t@, old(m)@),
{
    proof {
        reveal(Work::fits);
        reveal(base_moved);
    }
    let n: usize = xl.len();
    let kopt: usize = m.kopt;
    let ghost m0: ModelView = m@;
    let ghost npt: nat = m@.xpt.len();
    let ghost goal: ModelView = base_moved(t@, m0);
    assert(m.xpt@[kopt as int].len() == n);
    copy(&mut w.xosav, m.xpt.col(kopt));
    for i in 0..n
        invariant
            m0.fits(n as nat, npt),
            w.fits(n as nat, npt),
            w.kernel_calls() == old(w).kernel_calls(),
            w.xosav@ == m0.xopt(),
            m.fits(n as nat, npt),
            *m == (Model { sl: m.sl, su: m.su, ..*old(m) }),
            m0 == old(m)@,
            goal == base_moved(t@, m0),
            forall|j: int| 0 <= j < i ==> m.sl@[j] == goal.sl[j] && m.su@[j] == goal.su[j],
            forall|j: int| i <= j < n ==> m.sl@[j] == m0.sl[j] && m.su@[j] == m0.su[j],
    {
        proof {
            reveal(Work::fits);
            reveal(base_moved);
        }
        m.sl[i] = (m.sl[i] - w.xosav[i]).min(zero());
        m.su[i] = (m.su[i] - w.xosav[i]).max(zero());
    }
    assert(m.sl@ =~= goal.sl);
    assert(m.su@ =~= goal.su);
    shiftbase(
        kopt,
        &mut m.xbase,
        &mut m.xpt,
        &m.zmat,
        &mut m.bmat,
        &m.pq,
        &mut m.hq,
        &mut w.shift,
    );
    let ghost m1: ModelView = m@;
    for i in 0..n
        invariant
            n == xl@.len(),
            n == xu@.len(),
            t@.xl == xl@,
            t@.xu == xu@,
            m.fits(n as nat, npt),
            m@ == (ModelView { xbase: m@.xbase, ..m1 }),
            m1.xbase.len() == n,
            goal.xbase == Seq::new(
                n as nat,
                |i: int| max_of(xl@[i], min_of(xu@[i], m1.xbase[i])),
            ),
            forall|j: int| 0 <= j < i ==> m.xbase@[j] == goal.xbase[j],
            forall|j: int| i <= j < n ==> m.xbase@[j] == m1.xbase[j],
    {
        m.xbase[i] = xl[i].max(xu[i].min(m.xbase[i]));
    }
    assert(m.xbase@ =~= goal.xbase);
}

/// Moves the base point where the best point is far from it.
fn rebase(
    xl: &[F64],
    xu: &[F64],
    st: &mut Progress,
    w: &mut Work,
    t: Ghost<Task>,
    log: Ghost<Seq<Asked>>,
)
    requires
        old(st).fits(xl@.len(), old(st).m@.xpt.len()),
        xu@.len() == xl@.len(),
        old(w).fits(xl@.len(), old(st).m@.xpt.len()),
        t@.xl == xl@,
        t@.xu == xu@,
    ensures
        final(st).fits(xl@.len(), old(st).m@.xpt.len()),
        final(w).fits(xl@.len(), old(st).m@.xpt.len()),
        final(w).kernel_calls() == old(w).kernel_calls(),
        final(st).run(log@) == rebased(t@, old(st).run(log@)),
        *final(st) == (Progress { m: final(st).m, ..*old(st) }),
{
    proof {
        reveal(rebased);
    }
    let kopt: usize = st.m.kopt;
    assert(st.m.xpt@[kopt as int].len() == xl@.len());
    let sq: F64 = inprod(st.m.xpt.col(kopt), st.m.xpt.col(kopt));
    if sq.ge(thousand() * (st.delta * st.delta)) {
        move_base(xl, xu, &mut st.m, w, t);
    }
}

/// The part of an iteration that follows the trial step.
fn settle<F: FnMut(&[F64]) -> F64>(
    calfun: &mut F,
    set: &Settings,
    xl: &[F64],
    xu: &[F64],
    failed: bool,
    st: &mut Progress,
    w: &mut Work,
    log: &mut Ghost<Seq<Asked>>,
)
    requires
        old(st).fits(xl@.len(), old(st).m@.xpt.len()),
        old(w).fits(xl@.len(), old(st).m@.xpt.len()),
        good_bounds(xl@, xu@),
        !old(st).ended,
        old(st).tracks(Task { set: *set, xl: xl@, xu: xu@ }, old(log)@),
        serves(*old(calfun), xl@, xu@, old(log)@),
    ensures
        *final(calfun) == *old(calfun),
        final(st).fits(xl@.len(), old(st).m@.xpt.len()),
        final(w).fits(xl@.len(), old(st).m@.xpt.len()),
        final(st).tracks(Task { set: *set, xl: xl@, xu: xu@ }, final(log)@),
        serves(*old(calfun), xl@, xu@, final(log)@),
        goes_on(old(log)@, final(log)@),
        forall|o: Oracle| #[trigger]
            told(o, final(log)@) ==> final(st).run(final(log)@) == settled_down(
                Task { set: *set, xl: xl@, xu: xu@ },
                old(st).run(old(log)@),
                failed,
                o,
            ),
        forall|o: Oracle| #[trigger]
            told(o, final(log)@) ==> final(w).kernel_calls() == tallied(
                old(w).kernel_calls(),
                settled_kernels(
                    Task { set: *set, xl: xl@, xu: xu@ },
                    old(st).run(old(log)@),
                    failed,
                    o,
                ),
            ),
{
    proof {
        reveal(Work::fits);
        reveal(settled_down);
        lemma_tallied(w.kernel_calls(), 0, 0);
    }
    let ghost t: Task = Task { set: *set, xl: xl@, xu: xu@ };
    let ghost s0: Run = st.run(log@);
    let kopt: usize = st.m.kopt;
    assert(st.m.xpt@[kopt as int].len() == xl@.len());
    squared_distances_into(&st.m.xpt, st.m.xpt.col(kopt), &mut w.distsq);
    let accurate: bool = is_model_accurate(st, Ghost(log@));
    let reach: F64 = (st.delta * st.delta).max((ten() * st.rho) * (ten() * st.rho));
    let close: bool = is_all_at_most(&w.distsq, reach);
    assert(close == set_close(s0));
    let adequate: bool = (st.shortd && accurate) || close;
    let small: bool = st.delta.max(st.dnorm).le(st.rho);
    let unused: bool = st.shortd || failed || st.knew.is_none();
    let geometry: bool = (unused || st.ratio.le(set.eta1)) && !adequate;
    let reduce: bool = (unused || st.ratio.le(zero())) && adequate && small;
    assert(geometry == wants_geometry(t, s0, failed));
    assert(reduce == wants_reduction(s0, failed));
    if geometry {
        improve(calfun, set, xl, xu, st, w, log);
    }
    if !st.ended {
        if reduce {
            sharpen(set, st, Ghost(t), Ghost(log@));
        }
        if !st.ended {
            rebase(xl, xu, st, w, Ghost(t), Ghost(log@));
        }
    }
}

/// One iteration.
fn iterate<F: FnMut(&[F64]) -> F64>(
    calfun: &mut F,
    set: &Settings,
    xl: &[F64],
    xu: &[F64],
    st: &mut Progress,
    w: &mut Work,
    log: &mut Ghost<Seq<Asked>>,
)
    requires
        old(st).fits(xl@.len(), old(st).m@.xpt.len()),
        old(w).fits(xl@.len(), old(st).m@.xpt.len()),
        good_bounds(xl@, xu@),
        !old(st).ended,
        old(st).tracks(Task { set: *set, xl: xl@, xu: xu@ }, old(log)@),
        serves(*old(calfun), xl@, xu@, old(log)@),
    ensures
        *final(calfun) == *old(calfun),
        final(st).fits(xl@.len(), old(st).m@.xpt.len()),
        final(w).fits(xl@.len(), old(st).m@.xpt.len()),
        final(st).tracks(Task { set: *set, xl: xl@, xu: xu@ }, final(log)@),
        serves(*old(calfun), xl@, xu@, final(log)@),
        goes_on(old(log)@, final(log)@),
        forall|o: Oracle| #[trigger]
            told(o, final(log)@) ==> final(st).run(final(log)@) == iterated(
                Task { set: *set, xl: xl@, xu: xu@ },
                old(st).run(old(log)@),
                o,
            ),
        forall|o: Oracle| #[trigger]
            told(o, final(log)@) ==> final(w).kernel_calls() == tallied(
                old(w).kernel_calls(),
                iterated_kernels(
                    Task { set: *set, xl: xl@, xu: xu@ },
                    old(st).run(old(log)@),
                    o,
                ),
            ),
{
    proof {
        reveal(iterated);
        reveal(iterated_kernels);
    }
    let ghost calls: usize = w.kernel_calls();
    let ghost t: Task = Task { set: *set, xl: xl@, xu: xu@ };
    let ghost s0: Run = st.run(log@);
    let failed: bool = trial_part(calfun, set, xl, xu, st, w, log);
    let ghost log1: Seq<Asked> = log@;
    let ghost s1: Run = st.run(log1);
    let ghost calls1: usize = w.kernel_calls();
    if !st.ended {
        settle(calfun, set, xl, xu, failed, st, w, log);
    }
    proof {
        assert forall|o: Oracle| #[trigger] told(o, log@) implies st.run(log@) == iterated(
            t,
            s0,
            o,
        ) by {
            assert(told(o, log1));
            assert(s1 == trial(t, s0, o));
        }
        assert forall|o: Oracle| #[trigger] told(o, log@) implies w.kernel_calls() == tallied(
            calls,
            iterated_kernels(t, s0, o),
        ) by {
            assert(told(o, log1));
            assert(s1 == trial(t, s0, o));
            assert(calls1 == tallied(calls, trial_kernels(t, s0, o)));
            lemma_tallied(
                calls,
                trial_kernels(t, s0, o),
                settled_kernels(t, s1, failed, o),
            );
        }
    }
}

/// Evaluates the last trial step, if the iterations ended for a small resolution with a short
/// step that was not.
fn try_last_step<F: FnMut(&[F64]) -> F64>(
    calfun: &mut F,
    set: &Settings,
    xl: &[F64],
    xu: &[F64],
    st: &mut Progress,
    w: &mut Work,
    log: &mut Ghost<Seq<Asked>>,
)
    requires
        old(st).fits(xl@.len(), old(st).m@.xpt.len()),
        old(w).fits(xl@.len(), old(st).m@.xpt.len()),
        good_bounds(xl@, xu@),
        old(st).tracks(Task { set: *set, xl: xl@, xu: xu@ }, old(log)@),
        serves(*old(calfun), xl@, xu@, old(log)@),
    ensures
        *final(calfun) == *old(calfun),
        final(st).fits(xl@.len(), old(st).m@.xpt.len()),
        final(w).fits(xl@.len(), old(st).m@.xpt.len()),
        final(w).kernel_calls() == old(w).kernel_calls(),
        final(st).nf == final(log)@.len(),
        final(st).nf <= set.maxfun,
        in_box(final(st).x@, xl@, xu@),
        serves(*old(calfun), xl@, xu@, final(log)@),
        goes_on(old(log)@, final(log)@),
        forall|o: Oracle| #[trigger]
            told(o, final(log)@) ==> final(st).run(final(log)@) == last_step(
                Task { set: *set, xl: xl@, xu: xu@ },
                old(st).run(old(log)@),
                o,
            ),
{
    proof {
        reveal(last_step);
    }
    if st.info == SMALL_TR_RADIUS && st.shortd && st.dnorm.gt(tenth() * set.rhoend) && st.nf
        < set.maxfun {
        evaluate_step(calfun, set, xl, xu, st, w, log);
    }
}

/// Chooses the better one of the last point and the best one of the set.
fn choose_best(xl: &[F64], xu: &[F64], st: &mut Progress, t: Ghost<Task>, log: Ghost<Seq<Asked>>)
    requires
        old(st).fits(xl@.len(), old(st).m@.xpt.len()),
        good_bounds(xl@, xu@),
        in_box(old(st).x@, xl@, xu@),
        t@.xl == xl@,
        t@.xu == xu@,
    ensures
        final(st).fits(xl@.len(), old(st).m@.xpt.len()),
        final(st).run(log@) == chosen(t@, old(st).run(log@)),
        final(st).nf == old(st).nf,
        in_box(final(st).x@, xl@, xu@),
{
    proof {
        reveal(chosen);
    }
    let kopt: usize = st.m.kopt;
    let fopt: F64 = st.m.fval[kopt];
    if fopt.lt(st.f) || st.f.is_nan() {
        assert(st.m.xpt@[kopt as int].len() == xl@.len());
        xinbd_into(&st.m.xbase, st.m.xpt.col(kopt), xl, xu, &st.m.sl, &st.m.su, &mut st.x);
        st.f = fopt;
        proof {
            lemma_placed_in_box(
                st.m@.xbase,
                st.m@.xpt[kopt as int],
                xl@,
                xu@,
                st.m@.sl,
                st.m@.su,
            );
        }
    }
}

/// The whole run from `st.x`: the state afterwards holds the best point, its value, the number
/// of evaluations and the exit code.
pub(crate) fn solve<F: FnMut(&[F64]) -> F64>(
    calfun: &mut F,
    set: &Settings,
    xl: &[F64],
    xu: &[F64],
    st: &mut Progress,
    w: &mut Work,
    log: &mut Ghost<Seq<Asked>>,
)
    requires
        old(st).fits(xl@.len(), old(st).m@.xpt.len()),
        old(w).fits(xl@.len(), old(st).m@.xpt.len()),
        good_bounds(xl@, xu@),
        old(log)@.len() == 0,
        set.maxfun > old(st).m@.xpt.len(),
        serves(*old(calfun), xl@, xu@, old(log)@),
    ensures
        *final(calfun) == *old(calfun),
        final(st).fits(xl@.len(), old(st).m@.xpt.len()),
        final(w).fits(xl@.len(), old(st).m@.xpt.len()),
        final(st).nf == final(log)@.len(),
        final(st).nf <= set.maxfun,
        in_box(final(st).x@, xl@, xu@),
        serves(*old(calfun), xl@, xu@, final(log)@),
        forall|o: Oracle| #[trigger]
            told(o, final(log)@) ==> final(st).run(final(log)@) == solved(
                Task { set: *set, xl: xl@, xu: xu@ },
                old(st).m@.xpt.len(),
                old(st).x@,
                o,
            ),
        forall|o: Oracle| #[trigger]
            told(o, final(log)@) ==> final(w).kernel_calls() == tallied(
                old(w).kernel_calls(),
                solved_kernels(
                    Task { set: *set, xl: xl@, xu: xu@ },
                    old(st).m@.xpt.len(),
                    old(st).x@,
                    o,
                ),
            ),
{
    let ghost t: Task = Task { set: *set, xl: xl@, xu: xu@ };
    let ghost x0: Seq<F64> = st.x@;
    let ghost n: nat = xl@.len();
    let ghost npt: nat = st.m@.xpt.len();
    let ghost fun: F = *calfun;
    let ghost calls: usize = w.kernel_calls();
    proof {
        lemma_tallied(calls, 0, 0);
    }
    begin(calfun, set, xl, xu, st, w, log);
    let ghost log0: Seq<Asked> = log@;
    let ghost s0: Run = st.run(log0);
    if st.ended {
        return;
    }
    let maxtr: usize = if set.maxfun <= usize::MAX / 2 {
        2 * set.maxfun
    } else {
        usize::MAX
    };
    assert(maxtr == iteration_limit(set.maxfun));
    let mut tr: usize = 0;
    while tr < maxtr && !st.ended
        invariant
            t == (Task { set: *set, xl: xl@, xu: xu@ }),
            n == xl@.len(),
            *calfun == fun,
            st.fits(n, npt),
            w.fits(n, npt),
            good_bounds(xl@, xu@),
            st.tracks(t, log@),
            serves(fun, xl@, xu@, log@),
            goes_on(log0, log@),
            tr <= maxtr,
            forall|o: Oracle| #[trigger]
                told(o, log@) ==> iterations(t, s0, maxtr as nat, o) == iterations(
                    t,
                    st.run(log@),
                    (maxtr - tr) as nat,
                    o,
                ),
            forall|o: Oracle| #[trigger]
                told(o, log@) ==> tallied(
                    calls,
                    iterations_kernels(t, s0, maxtr as nat, o),
                ) == tallied(
                    w.kernel_calls(),
                    iterations_kernels(t, st.run(log@), (maxtr - tr) as nat, o),
                ),
        decreases maxtr - tr,
    {
        let ghost before: Seq<Asked> = log@;
        let ghost s: Run = st.run(before);
        let ghost calls0: usize = w.kernel_calls();
        iterate(calfun, set, xl, xu, st, w, log);
        tr = tr + 1;
        proof {
            assert forall|o: Oracle| #[trigger] told(o, log@) implies iterations(
                t,
                s0,
                maxtr as nat,
                o,
            ) == iterations(t, st.run(log@), (maxtr - tr) as nat, o) by {
                assert(told(o, before));
                assert(st.run(log@) == iterated(t, s, o));
            }
            assert forall|o: Oracle| #[trigger] told(o, log@) implies tallied(
                calls,
                iterations_kernels(t, s0, maxtr as nat, o),
            ) == tallied(
                w.kernel_calls(),
                iterations_kernels(t, st.run(log@), (maxtr - tr) as nat, o),
            ) by {
                assert(told(o, before));
                assert(st.run(log@) == iterated(t, s, o));
                lemma_tallied(
                    calls0,
                    iterated_kernels(t, s, o),
                    iterations_kernels(t, st.run(log@), (maxtr - tr) as nat, o),
                );
            }
        }
    }
    let ghost log1: Seq<Asked> = log@;
    let ghost s1: Run = st.run(log1);
    proof {
        lemma_tallied(w.kernel_calls(), 0, 0);
    }
    try_last_step(calfun, set, xl, xu, st, w, log);
    choose_best(xl, xu, st, Ghost(t), Ghost(log@));
    proof {
        assert forall|o: Oracle| #[trigger] told(o, log@) implies st.run(log@) == solved(
            t,
            npt,
            x0,
            o,
        ) by {
            assert(told(o, log1));
            assert(told(o, log0));
            assert(s0 == begun(t, npt, x0, o));
            assert(s1 == iterations(t, s0, maxtr as nat, o));
        }
        assert forall|o: Oracle| #[trigger] told(o, log@) implies w.kernel_calls() == tallied(
            calls,
            solved_kernels(t, npt, x0, o),
        ) by {
            assert(told(o, log1));
            assert(told(o, log0));
            assert(s0 == begun(t, npt, x0, o));
        }
    }
}

/// The bounds of a problem with the state and the scratch space of its runs.
#[derive(Debug, Clone)]
pub struct SolverWs {
    /// The lower bounds.
    pub xl: Vec<F64>,
    /// The upper bounds.
    pub xu: Vec<F64>,
    /// The state of the run.
    pub progress: Progress,
    /// The scratch space.
    pub work: Work,
}

impl SolverWs {
    /// The parts have the sizes for `n` variables and `npt` points.
    pub open spec fn fits(&self, n: nat, npt: nat) -> bool {
        &&& self.xl@.len() == n
        &&& self.xu@.len() == n
        &&& self.progress.fits(n, npt)
        &&& self.work.fits(n, npt)
    }

    /// Space for `n` variables and `npt` points.
    pub fn new(n: usize, npt: usize) -> (r: SolverWs)
        requires
            n > 0,
            npt >= n + 2,
            npt + n <= usize::MAX,
            10 * n <= usize::MAX,
        ensures
            r.fits(n as nat, npt as nat),
            r.work.kernel_calls() == 0,
    {
        SolverWs {
            xl: zeros(n),
            xu: zeros(n),
            progress: Progress::new(n, npt),
            work: Work::new(n, npt),
        }
    }
}

/// With the evaluations in `log`, all of them inside the bounds and with answers that the
/// objective gave, a run of the task ends at the point `x`, which is inside the bounds, with the
/// value, the number of evaluations and the exit code `r`.
pub open spec fn ends_with<F: FnMut(&[F64]) -> F64>(
    f: F,
    t: Task,
    npt: nat,
    x0: Seq<F64>,
    log: Seq<Asked>,
    x: Seq<F64>,
    r: (F64, usize, i32),
) -> bool {
    &&& log.len() == r.1
    &&& r.1 <= t.set.maxfun
    &&& answered(f, t.xl, t.xu, log)
    &&& in_box(x, t.xl, t.xu)
    &&& forall|o: Oracle| #[trigger]
        told(o, log) ==> {
            let s = solved(t, npt, x0, o);
            s.log == log && s.x == x && s.f == r.0 && s.info == r.2
        }
}

/// Minimizes the objective from the point in `ws.progress.x` inside the bounds in `ws`; the
/// best point takes its place.  The value there, the number of evaluations and the exit code.
pub fn bobyqb<F: FnMut(&[F64]) -> F64>(calfun: &mut F, set: &Settings, ws: &mut SolverWs) -> (r: (
    F64,
    usize,
    i32,
))
    requires
        old(ws).fits(old(ws).xl@.len(), old(ws).progress.m@.xpt.len()),
        good_bounds(old(ws).xl@, old(ws).xu@),
        set.maxfun > old(ws).progress.m@.xpt.len(),
        evaluable(*old(calfun), old(ws).xl@, old(ws).xu@),
    ensures
        *final(calfun) == *old(calfun),
        final(ws).fits(old(ws).xl@.len(), old(ws).progress.m@.xpt.len()),
        final(ws).xl == old(ws).xl,
        final(ws).xu == old(ws).xu,
        exists|log: Seq<Asked>| #[trigger]
            ends_with(
                *old(calfun),
                Task { set: *set, xl: old(ws).xl@, xu: old(ws).xu@ },
                old(ws).progress.m@.xpt.len(),
                old(ws).progress.x@,
                log,
                final(ws).progress.x@,
                r,
            ) && spends(
                Task { set: *set, xl: old(ws).xl@, xu: old(ws).xu@ },
                old(ws).progress.m@.xpt.len(),
                old(ws).progress.x@,
                log,
                old(ws).work.kernel_calls(),
                final(ws).work.kernel_calls(),
            ),
{
    let mut log: Ghost<Seq<Asked>> = Ghost(Seq::empty());
    solve(
        calfun,
        set,
        &ws.xl,
        &ws.xu,
        &mut ws.progress,
        &mut ws.work,
        &mut log,
    );
    let r: (F64, usize, i32) = (ws.progress.f, ws.progress.nf, ws.progress.info);
    proof {
        assert(ends_with(
            *old(calfun),
            Task { set: *set, xl: old(ws).xl@, xu: old(ws).xu@ },
            old(ws).progress.m@.xpt.len(),
            old(ws).progress.x@,
            log@,
            ws.progress.x@,
            r,
        ));
        assert(spends(
            Task { set: *set, xl: old(ws).xl@, xu: old(ws).xu@ },
            old(ws).progress.m@.xpt.len(),
            old(ws).progress.x@,
            log@,
            old(ws).work.kernel_calls(),
            ws.work.kernel_calls(),
        ));
    }
    r
}

} // verus!
