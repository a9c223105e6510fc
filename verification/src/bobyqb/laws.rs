//! What holds of every run: the shapes of its parts, where the objective is asked, which
//! values are found and what the exit codes mean.
use vstd::prelude::*;

use crate::bobyqb::course::alternative_tried;
use crate::bobyqb::course::asked;
use crate::bobyqb::course::base_moved;
use crate::bobyqb::course::begun;
use crate::bobyqb::course::carried_over;
use crate::bobyqb::course::chosen;
use crate::bobyqb::course::farthest;
use crate::bobyqb::course::filled;
use crate::bobyqb::course::half_filled;
use crate::bobyqb::course::improved;
use crate::bobyqb::course::improvement_damaged;
use crate::bobyqb::course::improvement_of;
use crate::bobyqb::course::improvement_tried;
use crate::bobyqb::course::improving_step;
use crate::bobyqb::course::increment;
use crate::bobyqb::course::iterated;
use crate::bobyqb::course::iteration_limit;
use crate::bobyqb::course::iterations;
use crate::bobyqb::course::judged;
use crate::bobyqb::course::laid_out;
use crate::bobyqb::course::last_step;
use crate::bobyqb::course::point_at;
use crate::bobyqb::course::point_replaced;
use crate::bobyqb::course::rebased;
use crate::bobyqb::course::refilled;
use crate::bobyqb::course::rescued;
use crate::bobyqb::course::set_filled;
use crate::bobyqb::course::settled_down;
use crate::bobyqb::course::sharpened;
use crate::bobyqb::course::shortened;
use crate::bobyqb::course::solved;
use crate::bobyqb::course::spread;
use crate::bobyqb::course::step_denominators;
use crate::bobyqb::course::step_fails;
use crate::bobyqb::course::stepped;
use crate::bobyqb::course::trial;
use crate::bobyqb::course::trial_damaged;
use crate::bobyqb::course::trial_placed;
use crate::bobyqb::course::tried;
use crate::bobyqb::course::value_from;
use crate::bobyqb::course::wants_geometry;
use crate::bobyqb::course::wants_reduction;
use crate::bobyqb::course::Asked;
use crate::bobyqb::course::Filling;
use crate::bobyqb::course::Oracle;
use crate::bobyqb::course::Run;
use crate::bobyqb::course::Task;
use crate::bobyqb::progress::good_bounds;
use crate::consts::realmax;
use crate::consts::DAMAGING_ROUNDING;
use crate::consts::FTARGET_ACHIEVED;
use crate::consts::INFO_DFT;
use crate::consts::MAXFUN_REACHED;
use crate::consts::MAXTR_REACHED;
use crate::consts::NAN_INF_F;
use crate::consts::NAN_INF_MODEL;
use crate::consts::NAN_INF_X;
use crate::consts::SMALL_TR_RADIUS;
use crate::float::order::at_most;
use crate::float::order::below;
use crate::float::order::lemma_order_total;
use crate::float::order::lemma_order_transitive;
use crate::float::F64;
use crate::geometry::lemma_drop_choice;
use crate::geometry::lemma_geometry_len;
use crate::geometry::point_to_drop;
use crate::initialize::lemma_pairs;
use crate::initialize::ordered_points;
use crate::initialize::source_of;
use crate::model::ModelView;
use crate::powalg::pairs_of;
use crate::rescue::absorbed;
use crate::rescue::lemma_prepared_keeps_best;
use crate::rescue::lemma_refill_advances;
use crate::rescue::not_worth;
use crate::rescue::provisional_point;
use crate::rescue::refill_sought;
use crate::rescue::refill_updated;
use crate::rescue::refill_valued;
use crate::rescue::rescue_prepared;
use crate::rescue::Rescuing;
use crate::status::known_exit;
use crate::util::exit_code;
use crate::util::in_box;
use crate::util::lemma_in_box_moderated;
use crate::util::lemma_in_box_real;
use crate::util::lemma_moderated_value;
use crate::util::lemma_placed_in_box;
use crate::util::moderated_f;
use crate::vector::all_finite;
use crate::vector::first_min;
use crate::vector::lemma_first_in_range;
use crate::vector::plus;

verus! {

/// The value that the method uses for an evaluation.
pub open spec fn used(a: Asked) -> F64 {
    moderated_f(a.raw)
}

/// The value belongs to an evaluation.
pub open spec fn was_found(v: F64, log: Seq<Asked>) -> bool {
    exists|k: int| 0 <= k < log.len() && v == used(#[trigger] log[k])
}

/// None of the first `k` values reaches the target.
pub open spec fn short_of(ftarget: F64, log: Seq<Asked>, k: int) -> bool {
    forall|i: int| 0 <= i < k && i < log.len() ==> !(used(#[trigger] log[i]) <= ftarget)
}

/// The objective was asked inside the bounds only.
pub open spec fn inside(t: Task, log: Seq<Asked>) -> bool {
    forall|k: int| 0 <= k < log.len() ==> in_box((#[trigger] log[k]).x, t.xl, t.xu)
}

/// A task for a set of `npt` points.
pub open spec fn posed(t: Task, npt: nat) -> bool {
    &&& t.xl.len() > 0
    &&& npt >= t.xl.len() + 2
    &&& npt < t.set.maxfun
    &&& good_bounds(t.xl, t.xu)
}

/// The parts of the set have the sizes for `n` variables and `npt` points.
pub open spec fn set_sized(m: ModelView, n: nat, npt: nat) -> bool {
    &&& m.xbase.len() == n
    &&& m.sl.len() == n
    &&& m.su.len() == n
    &&& m.xpt.len() == npt
    &&& forall|k: int| 0 <= k < npt ==> (#[trigger] m.xpt[k]).len() == n
    &&& m.fval.len() == npt
    &&& m.kopt < npt
}

/// Every value of the set was found.
pub open spec fn set_found(m: ModelView, log: Seq<Asked>) -> bool {
    forall|k: int| 0 <= k < m.fval.len() ==> was_found(#[trigger] m.fval[k], log)
}

/// What an exit code says: the budget is used up, the target is reached by `f` or `fopt`, or
/// the resolution is the final one; the point and the value were never at fault.
pub open spec fn exit_means(
    t: Task,
    info: i32,
    log: Seq<Asked>,
    f: F64,
    fopt: F64,
    rho: F64,
) -> bool {
    &&& known_exit(info)
    &&& info != NAN_INF_X && info != NAN_INF_F
    &&& info == MAXFUN_REACHED ==> log.len() == t.set.maxfun
    &&& info == FTARGET_ACHIEVED ==> f <= t.set.ftarget || fopt <= t.set.ftarget
    &&& info == SMALL_TR_RADIUS ==> rho <= t.set.rhoend
    &&& info != MAXFUN_REACHED && info != FTARGET_ACHIEVED ==> short_of(
        t.set.ftarget,
        log,
        log.len() as int,
    )
}

/// What holds between the parts of an iteration.
pub open spec fn in_order(t: Task, npt: nat, s: Run) -> bool {
    &&& set_sized(s.m, t.xl.len(), npt)
    &&& s.d.len() == t.xl.len()
    &&& npt <= s.log.len() <= t.set.maxfun
    &&& inside(t, s.log)
    &&& in_box(s.x, t.xl, t.xu)
    &&& was_found(s.f, s.log)
    &&& set_found(s.m, s.log)
    &&& !s.ended ==> {
        &&& s.info == MAXTR_REACHED
        &&& s.log.len() < t.set.maxfun
        &&& short_of(t.set.ftarget, s.log, s.log.len() as int)
    }
    &&& s.ended ==> {
        &&& short_of(t.set.ftarget, s.log, s.log.len() - 1)
        &&& exit_means(t, s.info, s.log, s.f, s.m.fopt(), s.rho)
    }
}

/// What was found stays found.
proof fn lemma_found_stays(v: F64, a: Seq<Asked>, e: Asked)
    requires
        was_found(v, a),
    ensures
        was_found(v, a.push(e)),
{
    let k = choose|k: int| 0 <= k < a.len() && v == used(#[trigger] a[k]);
    assert(a.push(e)[k] == a[k]);
}

/// An evaluation at a point inside the bounds.
pub(crate) proof fn lemma_asked(t: Task, log: Seq<Asked>, x: Seq<F64>, o: Oracle)
    requires
        good_bounds(t.xl, t.xu),
        in_box(x, t.xl, t.xu),
        inside(t, log),
    ensures
        ({
            let after = asked(log, x, o);
            let f = value_from(log, x, o);
            &&& after.len() == log.len() + 1
            &&& inside(t, after)
            &&& f == used(after[log.len() as int])
            &&& f.finite()
            &&& was_found(f, after)
            &&& all_finite(x)
            &&& forall|v: F64| was_found(v, log) ==> #[trigger] was_found(v, after)
            &&& forall|k: int| 0 <= k < log.len() ==> #[trigger] after[k] == log[k]
        }),
{
    lemma_in_box_real(x, t.xl, t.xu);
    lemma_in_box_moderated(x, t.xl, t.xu);
    let after = asked(log, x, o);
    let e = after[log.len() as int];
    lemma_moderated_value(e.raw);
    assert forall|v: F64| was_found(v, log) implies #[trigger] was_found(v, after) by {
        lemma_found_stays(v, log, e);
    }
    assert(all_finite(x)) by {
        assert forall|i: int| 0 <= i < x.len() implies (#[trigger] x[i]).finite() by {
            assert(x[i].within(t.xl[i], t.xu[i]));
            assert(t.xl[i].finite() && t.xu[i].finite());
            reveal(at_most);
        }
    }
}

/// The exit test after an evaluation inside the bounds.
pub(crate) proof fn lemma_exit_test(t: Task, log: Seq<Asked>, x: Seq<F64>, o: Oracle, info: i32)
    requires
        good_bounds(t.xl, t.xu),
        in_box(x, t.xl, t.xu),
        inside(t, log),
        log.len() < t.set.maxfun,
        short_of(t.set.ftarget, log, log.len() as int),
        ({
            let f = value_from(log, x, o);
            info == exit_code(t.set.maxfun, (log.len() + 1) as usize, f, t.set.ftarget, x)
        }),
    ensures
        ({
            let after = asked(log, x, o);
            let f = value_from(log, x, o);
            &&& short_of(t.set.ftarget, after, after.len() - 1)
            &&& info == INFO_DFT || info == MAXFUN_REACHED || info == FTARGET_ACHIEVED
            &&& info == INFO_DFT ==> {
                &&& after.len() < t.set.maxfun
                &&& short_of(t.set.ftarget, after, after.len() as int)
            }
            &&& info == MAXFUN_REACHED ==> after.len() == t.set.maxfun
            &&& info == FTARGET_ACHIEVED ==> f <= t.set.ftarget
        }),
{
    lemma_asked(t, log, x, o);
}

/// A point of the set, or a step from it, gives a point inside the bounds.
pub(crate) proof fn lemma_point_inside(t: Task, m: ModelView, step: Seq<F64>)
    requires
        good_bounds(t.xl, t.xu),
        m.xbase.len() == t.xl.len(),
    ensures
        in_box(point_at(t, m, step), t.xl, t.xu),
{
    lemma_placed_in_box(m.xbase, step, t.xl, t.xu, m.sl, m.su);
}

/// A state after an evaluation at a point inside the bounds and its exit test.
pub(crate) proof fn lemma_evaluated(t: Task, npt: nat, s: Run, x: Seq<F64>, o: Oracle, info: i32)
    requires
        posed(t, npt),
        in_order(t, npt, s),
        !s.ended,
        in_box(x, t.xl, t.xu),
        info == exit_code(
            t.set.maxfun,
            (s.log.len() + 1) as usize,
            value_from(s.log, x, o),
            t.set.ftarget,
            x,
        ),
    ensures
        ({
            let s1 = s.evaluated(x, o);
            &&& info == INFO_DFT ==> in_order(t, npt, s1)
            &&& info != INFO_DFT ==> in_order(t, npt, s1.ended_with(info))
            &&& s1.log.len() == s.log.len() + 1
            &&& s1.f == used(s1.log[s.log.len() as int])
            &&& s1.f.finite()
            &&& forall|k: int| 0 <= k < s.log.len() ==> #[trigger] s1.log[k] == s.log[k]
        }),
{
    lemma_asked(t, s.log, x, o);
    lemma_exit_test(t, s.log, x, o, info);
    let s1 = s.evaluated(x, o);
    assert(set_found(s1.m, s1.log));
}

/// The search for the next provisional point keeps the sizes and the values.
pub(crate) proof fn lemma_sought(r: Rescuing, delta: F64, n: nat, npt: nat)
    requires
        set_sized(r.m, n, npt),
        r.ids.len() == npt,
        r.a1.len() == n,
    ensures
        ({
            let r1 = refill_sought(r, delta);
            &&& set_sized(r1.m, n, npt)
            &&& r1.m.fval == r.m.fval
            &&& r1.m.kopt == r.m.kopt
            &&& r1.ids == r.ids
            &&& r1.a1 == r.a1
        }),
    decreases r.ids.len() - r.kpt,
{
    if !(r.kpt >= r.ids.len() || r.kpt >= usize::MAX) {
        let k = r.kpt as int;
        let next = (r.kpt + 1) as usize;
        match r.ids[k] {
            None => {
                lemma_sought(Rescuing { kpt: next, ..r }, delta, n, npt);
            },
            Some(id) => {
                let m = absorbed(r.m, k);
                let x = provisional_point(id, r.a1, r.a2);
                if not_worth(x, m.xpt[k], delta) {
                    lemma_sought(Rescuing { m, kpt: next, ..r }, delta, n, npt);
                } else {
                    let m1 = ModelView { xpt: m.xpt.update(k, x), ..m };
                    assert(set_sized(m1, n, npt));
                }
            },
        }
    }
}

/// The evaluation of provisional points keeps the run in order.
pub(crate) proof fn lemma_refilled(
    t: Task,
    npt: nat,
    r: Rescuing,
    delta: F64,
    log: Seq<Asked>,
    o: Oracle,
)
    requires
        posed(t, npt),
        set_sized(r.m, t.xl.len(), npt),
        r.ids.len() == npt,
        r.a1.len() == t.xl.len(),
        0 < log.len() < t.set.maxfun,
        inside(t, log),
        set_found(r.m, log),
        short_of(t.set.ftarget, log, log.len() as int),
    ensures
        ({
            let (m, after, info) = refilled(t, r, delta, log, o);
            &&& set_sized(m, t.xl.len(), npt)
            &&& 0 < after.len() <= t.set.maxfun
            &&& inside(t, after)
            &&& set_found(m, after)
            &&& forall|v: F64| was_found(v, log) ==> #[trigger] was_found(v, after)
            &&& log.len() <= after.len()
            &&& forall|k: int| 0 <= k < log.len() ==> #[trigger] after[k] == log[k]
            &&& short_of(t.set.ftarget, after, after.len() - 1)
            &&& info == INFO_DFT || info == MAXFUN_REACHED || info == FTARGET_ACHIEVED
            &&& info == INFO_DFT ==> {
                &&& after.len() < t.set.maxfun
                &&& short_of(t.set.ftarget, after, after.len() as int)
            }
            &&& info == MAXFUN_REACHED ==> after.len() == t.set.maxfun
            &&& info == FTARGET_ACHIEVED ==> m.fopt() <= t.set.ftarget
        }),
    decreases r.ids.len() - r.kpt,
{
    let n = t.xl.len();
    let r1 = refill_sought(r, delta);
    lemma_sought(r, delta, n, npt);
    lemma_refill_advances(r, delta);
    if r1.kpt >= r1.ids.len() || r1.kpt >= usize::MAX {
    } else {
        let k = r1.kpt as int;
        let x = point_at(t, r1.m, r1.m.xpt[k]);
        lemma_point_inside(t, r1.m, r1.m.xpt[k]);
        let f = value_from(log, x, o);
        let log1 = asked(log, x, o);
        lemma_asked(t, log, x, o);
        let r2 = refill_valued(r1, f);
        let info = exit_code(t.set.maxfun, log1.len() as usize, f, t.set.ftarget, x);
        lemma_exit_test(t, log, x, o, info);
        assert(set_sized(r2.m, n, npt));
        assert(set_found(r2.m, log1)) by {
            assert forall|j: int| 0 <= j < r2.m.fval.len() implies was_found(
                #[trigger] r2.m.fval[j],
                log1,
            ) by {
                if j != k {
                    assert(r2.m.fval[j] == r.m.fval[j]);
                    assert(was_found(r.m.fval[j], log));
                }
            }
        }
        if info != INFO_DFT {
            if info == FTARGET_ACHIEVED {
                lemma_valued_best(r1, f, log);
                lemma_order_transitive(r2.m.fopt(), f, t.set.ftarget);
            }
        } else {
            let r3 = refill_updated(r2, f);
            lemma_refilled(t, npt, r3, delta, log1, o);
        }
    }
}

/// The best value of the set is a finite number.
pub(crate) proof fn lemma_found_finite(v: F64, log: Seq<Asked>)
    requires
        was_found(v, log),
    ensures
        v.finite(),
{
    let k = choose|k: int| 0 <= k < log.len() && v == used(#[trigger] log[k]);
    lemma_moderated_value(log[k].raw);
}

/// After a value is taken into the set, the best value is not above it.
proof fn lemma_valued_best(r: Rescuing, f: F64, log: Seq<Asked>)
    requires
        r.m.kopt < r.m.fval.len(),
        r.kpt < r.m.fval.len(),
        set_found(r.m, log),
        f.finite(),
    ensures
        refill_valued(r, f).m.fopt() <= f,
{
    let m = refill_valued(r, f).m;
    let fval = r.m.fval.update(r.kpt as int, f);
    let old_best = fval[r.m.kopt as int];
    assert(old_best.finite()) by {
        if r.kpt != r.m.kopt {
            assert(was_found(r.m.fval[r.m.kopt as int], log));
            lemma_found_finite(r.m.fval[r.m.kopt as int], log);
        }
    }
    lemma_order_total(old_best, f);
    lemma_order_total(f, f);
    reveal(below);
    reveal(at_most);
}

/// A rescue keeps the run in order.
pub(crate) proof fn lemma_rescued(t: Task, npt: nat, s: Run, o: Oracle)
    requires
        posed(t, npt),
        in_order(t, npt, s),
        !s.ended,
    ensures
        in_order(t, npt, rescued(t, s, o)),
        rescued(t, s, o).f == s.f,
        rescued(t, s, o).d == s.d,
{
    reveal(rescued);
    let n = t.xl.len();
    let r = rescue_prepared(s.m, s.delta, t.xl, t.xu);
    lemma_prepared(s.m, s.delta, t.xl, t.xu, n, npt);
    assert(set_found(r.m, s.log)) by {
        assert(r.m.fval == s.m.fval);
    }
    lemma_refilled(t, npt, r, s.delta, s.log, o);
    let (m, log, info) = refilled(t, r, s.delta, s.log, o);
    assert(was_found(s.f, log));
    assert(exit_means(t, info, log, s.f, m.fopt(), s.rho) || info == INFO_DFT);
}

/// The preparation of a rescue keeps the sizes and the values.
pub(crate) proof fn lemma_prepared(
    m: ModelView,
    delta: F64,
    xl: Seq<F64>,
    xu: Seq<F64>,
    n: nat,
    npt: nat,
)
    requires
        set_sized(m, n, npt),
    ensures
        ({
            let r = rescue_prepared(m, delta, xl, xu);
            &&& set_sized(r.m, n, npt)
            &&& r.m.fval == m.fval
            &&& r.m.kopt == m.kopt
            &&& r.ids.len() == npt
            &&& r.ids[m.kopt as int] is None
            &&& r.a1.len() == n
        }),
{
    lemma_prepared_keeps_best(m, delta, xl, xu);
    let r = rescue_prepared(m, delta, xl, xu);
    assert(m.xpt[m.kopt as int].len() == n);
    assert forall|k: int| 0 <= k < npt implies (#[trigger] r.m.xpt[k]).len() == n by {
        assert(m.xpt[k].len() == n);
    }
}

/// Replacing a point keeps the sizes, and the values stay found.
pub(crate) proof fn lemma_replaced(
    m: ModelView,
    k: usize,
    d: Seq<F64>,
    f: F64,
    moderr: F64,
    ximproved: bool,
    log: Seq<Asked>,
    n: nat,
    npt: nat,
)
    requires
        set_sized(m, n, npt),
        d.len() == n,
        k < npt,
        set_found(m, log),
        was_found(f, log),
    ensures
        ({
            let m1 = point_replaced(m, k, d, f, moderr, ximproved);
            &&& set_sized(m1, n, npt)
            &&& set_found(m1, log)
            &&& m1.fval == m.fval.update(k as int, f)
            &&& m1.kopt == (if ximproved {
                k
            } else {
                m.kopt
            })
        }),
{
    reveal(point_replaced);
    let m1 = point_replaced(m, k, d, f, moderr, ximproved);
    assert forall|j: int| 0 <= j < npt implies (#[trigger] m1.xpt[j]).len() == n by {
        if j != k {
            assert(m1.xpt[j] == m.xpt[j]);
        }
    }
    assert forall|j: int| 0 <= j < m1.fval.len() implies was_found(#[trigger] m1.fval[j], log) by {
        if j != k {
            assert(m1.fval[j] == m.fval[j]);
        }
    }
}

/// Taking the trial point into the set keeps the run in order.
proof fn lemma_placed(t: Task, npt: nat, s: Run, moderr: F64)
    requires
        posed(t, npt),
        in_order(t, npt, s),
        !s.ended,
    ensures
        in_order(t, npt, trial_placed(t, s, moderr)),
{
    reveal(trial_placed);
    reveal(alternative_tried);
    let m = s.m;
    let ximproved = s.f < m.fopt();
    let den = step_denominators(m, s.d);
    lemma_drop_choice(m.kopt as int, ximproved, s.d, s.rho, m.xpt, den);
    match point_to_drop(m.kopt as int, ximproved, s.d, s.rho, m.xpt, den) {
        None => {},
        Some(k) => {
            lemma_replaced(
                m,
                k as usize,
                s.d,
                s.f,
                moderr,
                ximproved,
                s.log,
                t.xl.len(),
                npt,
            );
        },
    }
}

/// The trust-region part keeps the run in order.
pub(crate) proof fn lemma_trial(t: Task, npt: nat, s: Run, o: Oracle)
    requires
        posed(t, npt),
        in_order(t, npt, s),
        !s.ended,
    ensures
        in_order(t, npt, trial(t, s, o)),
{
    reveal(trial);
    reveal(stepped);
    reveal(shortened);
    reveal(tried);
    reveal(judged);
    reveal(carried_over);
    let n = t.xl.len();
    assert(s.m.xpt[s.m.kopt as int].len() == n);
    let s1 = stepped(s);
    assert(in_order(t, npt, s1));
    if !(s1.shortd || step_fails(s1)) {
        let qred = -increment(s1.m, s1.d);
        let step = plus(s1.m.xopt(), s1.d);
        let x = point_at(t, s1.m, step);
        lemma_point_inside(t, s1.m, step);
        let e = s1.evaluated(x, o);
        let info = exit_code(t.set.maxfun, e.log.len() as usize, e.f, t.set.ftarget, x);
        lemma_evaluated(t, npt, s1, x, o, info);
        let s2 = Run { rescued: false, ..e };
        if info == INFO_DFT {
            let s3 = judged(t, s2, qred);
            assert(in_order(t, npt, s3));
            if s3.f < s3.m.fopt() && trial_damaged(s3.m, s3.d) {
                lemma_rescued(t, npt, s3, o);
                let s4 = rescued(t, s3, o);
                if !s4.ended {
                    let s5 = carried_over(s4);
                    assert(in_order(t, npt, s5));
                    let moderr = s5.f - s5.m.fopt() - increment(s5.m, s5.d);
                    lemma_placed(t, npt, s5, moderr);
                }
            } else {
                lemma_placed(t, npt, s3, s3.f - s3.m.fopt() + qred);
            }
        }
    }
}

/// The geometry part keeps the run in order.
pub(crate) proof fn lemma_improved(t: Task, npt: nat, s: Run, o: Oracle)
    requires
        posed(t, npt),
        in_order(t, npt, s),
        !s.ended,
    ensures
        in_order(t, npt, improved(t, s, o)),
{
    reveal(improved);
    reveal(improvement_tried);
    let n = t.xl.len();
    let k = farthest(s.m);
    lemma_first_in_range(spread(s.m), npt);
    assert(s.m.xpt[s.m.kopt as int].len() == n);
    assert(s.m.xpt[k].len() == n);
    let s1 = Run { d: improving_step(s), ..s };
    lemma_geometry_len(improvement_of(s));
    assert(in_order(t, npt, s1));
    if improvement_damaged(s1.m, s1.d, k) {
        if !s1.rescued {
            lemma_rescued(t, npt, s1, o);
        }
    } else {
        let step = plus(s1.m.xopt(), s1.d);
        let x = point_at(t, s1.m, step);
        lemma_point_inside(t, s1.m, step);
        let e = s1.evaluated(x, o);
        let info = exit_code(t.set.maxfun, e.log.len() as usize, e.f, t.set.ftarget, x);
        lemma_evaluated(t, npt, s1, x, o, info);
        if info == INFO_DFT {
            let moderr = e.f - e.m.fopt() - increment(e.m, e.d);
            lemma_replaced(e.m, k as usize, e.d, e.f, moderr, e.f < e.m.fopt(), e.log, n, npt);
        }
    }
}

/// An iteration keeps the run in order.
pub(crate) proof fn lemma_iterated(t: Task, npt: nat, s: Run, o: Oracle)
    requires
        posed(t, npt),
        in_order(t, npt, s),
        !s.ended,
    ensures
        in_order(t, npt, iterated(t, s, o)),
{
    reveal(iterated);
    reveal(settled_down);
    reveal(sharpened);
    reveal(rebased);
    reveal(base_moved);
    let n = t.xl.len();
    lemma_trial(t, npt, s, o);
    let s1 = trial(t, s, o);
    if !s1.ended {
        let failed = step_fails(stepped(s));
        lemma_improved(t, npt, s1, o);
        let s2 = if wants_geometry(t, s1, failed) {
            improved(t, s1, o)
        } else {
            s1
        };
        if !s2.ended {
            let s3 = if wants_reduction(s1, failed) {
                sharpened(t, s2)
            } else {
                s2
            };
            assert(in_order(t, npt, s3));
            if !s3.ended {
                assert(s3.m.xpt[s3.m.kopt as int].len() == n);
                let m = base_moved(t, s3.m);
                assert forall|k: int| 0 <= k < npt implies (#[trigger] m.xpt[k]).len() == n by {
                    assert(s3.m.xpt[k].len() == n);
                }
            }
        }
    }
}

/// Iterations keep the run in order.
pub(crate) proof fn lemma_iterations(t: Task, npt: nat, s: Run, k: nat, o: Oracle)
    requires
        posed(t, npt),
        in_order(t, npt, s),
    ensures
        in_order(t, npt, iterations(t, s, k, o)),
    decreases k,
{
    if k > 0 && !s.ended {
        lemma_iterated(t, npt, s, o);
        lemma_iterations(t, npt, iterated(t, s, o), (k - 1) as nat, o);
    }
}

/// The evaluation of the initial set keeps within the bounds and the budget.
pub(crate) proof fn lemma_filled(t: Task, npt: nat, m: ModelView, i: Filling, upto: nat, o: Oracle)
    requires
        posed(t, npt),
        m.xbase.len() == t.xl.len(),
        upto <= npt,
        i.fval.len() == npt,
        i.log.len() <= npt,
        inside(t, i.log),
        forall|k: int| 0 <= k < i.log.len() ==> was_found(#[trigger] i.fval[k], i.log),
        i.info == INFO_DFT ==> short_of(t.set.ftarget, i.log, i.log.len() as int),
        i.info != INFO_DFT ==> {
            &&& i.info == FTARGET_ACHIEVED
            &&& short_of(t.set.ftarget, i.log, i.log.len() - 1)
            &&& i.log.len() > 0
            &&& used(i.log.last()) <= t.set.ftarget
        },
    ensures
        ({
            let r = filled(t, m, i, upto, o);
            &&& r.fval.len() == npt
            &&& i.log.len() <= r.log.len() <= npt
            &&& i.log.len() < upto && i.info == INFO_DFT ==> r.log.len() > i.log.len()
            &&& inside(t, r.log)
            &&& forall|k: int| 0 <= k < r.log.len() ==> was_found(#[trigger] r.fval[k], r.log)
            &&& forall|k: int| r.log.len() <= k < npt ==> #[trigger] r.fval[k] == i.fval[k]
            &&& r.info == INFO_DFT ==> {
                &&& r.log.len() >= upto
                &&& short_of(t.set.ftarget, r.log, r.log.len() as int)
            }
            &&& r.info != INFO_DFT ==> {
                &&& r.info == FTARGET_ACHIEVED
                &&& short_of(t.set.ftarget, r.log, r.log.len() - 1)
                &&& r.log.len() > 0
                &&& used(r.log.last()) <= t.set.ftarget
            }
            &&& forall|k: int|
                0 <= k < i.log.len() && k < r.log.len() ==> #[trigger] r.log[k] == i.log[k]
            &&& forall|k: int| 0 <= k < i.log.len() ==> #[trigger] r.fval[k] == i.fval[k]
            &&& forall|k: int|
                i.log.len() <= k < r.log.len() ==> #[trigger] r.fval[k] == used(r.log[k])
        }),
    decreases upto - i.log.len(),
{
    let k = i.log.len();
    if !(k >= upto || i.info != INFO_DFT) {
        let x = point_at(t, m, m.xpt[k as int]);
        lemma_point_inside(t, m, m.xpt[k as int]);
        let f = value_from(i.log, x, o);
        let next = Filling {
            fval: i.fval.update(k as int, f),
            log: asked(i.log, x, o),
            info: exit_code(t.set.maxfun, (k + 1) as usize, f, t.set.ftarget, x),
        };
        lemma_asked(t, i.log, x, o);
        lemma_exit_test(t, i.log, x, o, next.info);
        assert forall|j: int| 0 <= j < next.log.len() implies was_found(
            #[trigger] next.fval[j],
            next.log,
        ) by {
            if j != k {
                assert(next.fval[j] == i.fval[j]);
                assert(was_found(i.fval[j], i.log));
            }
        }
        lemma_filled(t, npt, m, next, upto, o);
    }
}

/// The value is not above any that was found.
pub open spec fn is_least(v: F64, log: Seq<Asked>) -> bool {
    forall|k: int| 0 <= k < log.len() ==> v <= used(#[trigger] log[k])
}

/// The scan for the least entry finds one that is not above any other, if none is NaN.
proof fn lemma_first_min_least(x: Seq<F64>, k: nat)
    requires
        0 < k <= x.len(),
        forall|j: int| 0 <= j < k ==> !(#[trigger] x[j]).nan(),
    ensures
        0 <= first_min(x, k) < k,
        forall|j: int| 0 <= j < k ==> x[first_min(x, k)] <= #[trigger] x[j],
    decreases k,
{
    reveal(below);
    reveal(at_most);
    lemma_first_in_range(x, k);
    if k > 1 {
        lemma_first_min_least(x, (k - 1) as nat);
    }
}

/// The set while it is filled: the values are those of the evaluations, in some order, and the
/// other entries are larger than any value.
pub(crate) proof fn lemma_half_filled(t: Task, npt: nat, x0: Seq<F64>, o: Oracle)
    requires
        posed(t, npt),
        x0.len() == t.xl.len(),
    ensures
        ({
            let (m, i) = half_filled(t, npt, x0, o);
            &&& set_sized(m, t.xl.len(), npt)
            &&& i.fval.len() == npt
            &&& 0 < i.log.len() <= npt
            &&& inside(t, i.log)
            &&& forall|k: int| 0 <= k < i.log.len() ==> was_found(#[trigger] i.fval[k], i.log)
            &&& forall|k: int|
                0 <= k < i.log.len() ==> exists|j: int|
                    0 <= j < i.log.len() && #[trigger] i.fval[j] == used(#[trigger] i.log[k])
            &&& i.info == INFO_DFT ==> short_of(t.set.ftarget, i.log, i.log.len() as int)
            &&& i.info != INFO_DFT ==> {
                &&& i.info == FTARGET_ACHIEVED
                &&& short_of(t.set.ftarget, i.log, i.log.len() - 1)
                &&& used(i.log.last()) <= t.set.ftarget
            }
        }),
{
    let n = t.xl.len();
    let m0 = laid_out(t, npt, x0);
    let limit = if npt < 2 * n + 1 {
        npt
    } else {
        2 * n + 1
    };
    let start = Filling { fval: m0.fval, log: Seq::empty(), info: INFO_DFT };
    let i1 = filled(t, m0, start, limit, o);
    lemma_filled(t, npt, m0, start, limit, o);
    let count = i1.log.len() as int;
    assert forall|k: int| 0 <= k < count implies #[trigger] i1.fval[k] == used(i1.log[k])
        && !(realmax() < i1.fval[k]) by {
        lemma_moderated_value(i1.log[k].raw);
        reveal(below);
        reveal(at_most);
    }
    let (m, i) = half_filled(t, npt, x0, o);
    assert(!(realmax() < realmax())) by {
        reveal(below);
    }
    assert forall|k: int| 0 <= k < count implies 0 <= #[trigger] source_of(
        n,
        i1.fval,
        m0.xpt,
        k,
    ) < count by {}
    assert forall|k: int| 0 <= k < count implies exists|j: int|
        0 <= j < count && #[trigger] i.fval[j] == used(#[trigger] i.log[k]) by {
        let j = source_of(n, i1.fval, m0.xpt, k);
        assert(source_of(n, i1.fval, m0.xpt, j) == k);
        assert(i.fval[j] == i1.fval[k]);
        assert(i.fval[j] == used(i.log[k]));
    }
    assert forall|k: int| 0 <= k < count implies was_found(#[trigger] i.fval[k], i.log) by {
        let j = source_of(n, i1.fval, m0.xpt, k);
        assert(i.fval[k] == i1.fval[j]);
        assert(i.fval[k] == used(i.log[j]));
    }
    assert forall|k: int| 0 <= k < npt implies (#[trigger] m.xpt[k]).len() == n by {
        let xs = ordered_points(n, i1.fval, m0.xpt);
        assert forall|j: int| 0 <= j < npt implies (#[trigger] xs[j]).len() == n by {
            assert(0 <= source_of(n, i1.fval, m0.xpt, j) < npt);
        }
        if k >= 2 * n + 1 {
            lemma_pairs(n, npt, k - 2 * n - 1);
            let ij = pairs_of(n, npt);
            assert(xs[ij[k - 2 * n - 1].0 as int + 1].len() == n);
        }
    }
}

/// The set when its evaluation is over.
pub(crate) proof fn lemma_set_filled(t: Task, npt: nat, x0: Seq<F64>, o: Oracle)
    requires
        posed(t, npt),
        x0.len() == t.xl.len(),
    ensures
        ({
            let (m, i) = set_filled(t, npt, x0, o);
            &&& set_sized(m, t.xl.len(), npt)
            &&& 0 < i.log.len() <= npt
            &&& inside(t, i.log)
            &&& m.kopt < i.log.len()
            &&& forall|k: int| 0 <= k < i.log.len() ==> was_found(#[trigger] m.fval[k], i.log)
            &&& is_least(m.fopt(), i.log)
            &&& i.info == INFO_DFT ==> {
                &&& i.log.len() == npt
                &&& short_of(t.set.ftarget, i.log, i.log.len() as int)
            }
            &&& i.info != INFO_DFT ==> {
                &&& i.info == FTARGET_ACHIEVED
                &&& short_of(t.set.ftarget, i.log, i.log.len() - 1)
                &&& used(i.log.last()) <= t.set.ftarget
            }
        }),
{
    let (m1, i1) = half_filled(t, npt, x0, o);
    lemma_half_filled(t, npt, x0, o);
    lemma_filled(t, npt, m1, i1, npt, o);
    let (m, i) = set_filled(t, npt, x0, o);
    assert forall|k: int| 0 <= k < i.log.len() implies !(#[trigger] i.fval[k]).nan() by {
        assert(was_found(i.fval[k], i.log));
        lemma_found_finite(i.fval[k], i.log);
    }
    lemma_first_min_least(i.fval, i.log.len());
    assert forall|k: int| 0 <= k < i.log.len() implies m.fopt() <= used(#[trigger] i.log[k]) by {
        if k < i1.log.len() {
            assert(i.log[k] == i1.log[k]);
            let j = choose|j: int|
                0 <= j < i1.log.len() && #[trigger] i1.fval[j] == used(i1.log[k]);
            assert(i.fval[j] == i1.fval[j]);
        } else {
            assert(i.fval[k] == used(i.log[k]));
        }
    }
}

/// What holds at the end of a run.
pub open spec fn finished(t: Task, npt: nat, s: Run) -> bool {
    &&& 0 < s.log.len() <= t.set.maxfun
    &&& inside(t, s.log)
    &&& in_box(s.x, t.xl, t.xu)
    &&& was_found(s.f, s.log)
    &&& known_exit(s.info)
    &&& s.info != NAN_INF_X && s.info != NAN_INF_F
    &&& s.info == MAXFUN_REACHED ==> s.log.len() == t.set.maxfun
    &&& s.info == FTARGET_ACHIEVED ==> s.f <= t.set.ftarget
    &&& s.info == SMALL_TR_RADIUS ==> s.rho <= t.set.rhoend
    &&& s.info != FTARGET_ACHIEVED ==> s.log.len() >= npt
    &&& short_of(t.set.ftarget, s.log, s.log.len() - 1)
    &&& s.info != MAXFUN_REACHED && s.info != FTARGET_ACHIEVED && s.info != SMALL_TR_RADIUS
        ==> short_of(t.set.ftarget, s.log, s.log.len() as int)
}

/// The state before the iterations.
pub(crate) proof fn lemma_begun(t: Task, npt: nat, x0: Seq<F64>, o: Oracle)
    requires
        posed(t, npt),
        x0.len() == t.xl.len(),
    ensures
        ({
            let s = begun(t, npt, x0, o);
            &&& !s.ended ==> in_order(t, npt, s) && s.log.len() == npt
            &&& s.ended ==> finished(t, npt, s)
            &&& is_least(s.m.fopt(), s.log)
            &&& s.f == s.m.fopt()
            &&& s.rho == t.set.rhobeg
        }),
{
    reveal(begun);
    let (m, i) = set_filled(t, npt, x0, o);
    lemma_set_filled(t, npt, x0, o);
    lemma_point_inside(t, m, m.xopt());
    let s = begun(t, npt, x0, o);
    assert(was_found(m.fval[m.kopt as int], i.log));
    assert(s.m.fval == m.fval && s.m.kopt == m.kopt);
    if i.info != INFO_DFT {
        let last = i.log[i.log.len() - 1];
        assert(m.fopt() <= used(last));
        lemma_order_transitive(m.fopt(), used(last), t.set.ftarget);
    }
}

/// The end of a run.
proof fn lemma_closed(t: Task, npt: nat, s: Run, o: Oracle)
    requires
        posed(t, npt),
        in_order(t, npt, s),
    ensures
        finished(t, npt, chosen(t, last_step(t, s, o))),
{
    reveal(last_step);
    reveal(chosen);
    reveal(below);
    reveal(at_most);
    let s1 = last_step(t, s, o);
    let x = point_at(t, s.m, plus(s.m.xopt(), s.d));
    lemma_point_inside(t, s.m, plus(s.m.xopt(), s.d));
    lemma_asked(t, s.log, x, o);
    assert(set_found(s.m, s1.log));
    assert(was_found(s1.m.fval[s1.m.kopt as int], s1.log));
    lemma_found_finite(s1.m.fopt(), s1.log);
    lemma_found_finite(s1.f, s1.log);
    lemma_point_inside(t, s1.m, s1.m.xopt());
}

/// Every run asks the objective inside the bounds only, keeps within the budget, ends at a
/// point inside the bounds with a value that was found, and ends for the reason that its exit
/// code tells: the budget is used up, the target is reached, or the resolution is the final
/// one.  A run that does not reach the target evaluates the initial set at least.  The run stops
/// at the first value that reaches the target, unless that is the value of the last step after
/// the end for a small resolution.
pub proof fn lemma_finished(t: Task, npt: nat, x0: Seq<F64>, o: Oracle)
    requires
        posed(t, npt),
        x0.len() == t.xl.len(),
    ensures
        finished(t, npt, solved(t, npt, x0, o)),
{
    lemma_begun(t, npt, x0, o);
    let s = begun(t, npt, x0, o);
    if !s.ended {
        lemma_iterations(t, npt, s, iteration_limit(t.set.maxfun), o);
        lemma_closed(t, npt, iterations(t, s, iteration_limit(t.set.maxfun), o), o);
    }
}

/// The states `st` follow one another: the first is `s`, an iteration leads from each to the next,
/// and none but the last has ended.
pub open spec fn follows(t: Task, s: Run, st: Seq<Run>, o: Oracle) -> bool {
    &&& st.len() > 0
    &&& st[0] == s
    &&& forall|i: int|
        0 < i < st.len() ==> !st[i - 1].ended && #[trigger] st[i] == iterated(t, st[i - 1], o)
}

/// The iterations go on until the state has ended or there were as many as allowed.
proof fn lemma_iterations_follow(t: Task, s: Run, k: nat, o: Oracle) -> (st: Seq<Run>)
    ensures
        follows(t, s, st, o),
        st.last() == iterations(t, s, k, o),
        !st.last().ended ==> st.len() == k + 1,
    decreases k,
{
    if k == 0 || s.ended {
        seq![s]
    } else {
        let s1 = iterated(t, s, o);
        let rest = lemma_iterations_follow(t, s1, (k - 1) as nat, o);
        let st = seq![s] + rest;
        assert(st.last() == rest.last());
        assert forall|i: int| 0 < i < st.len() implies !st[i - 1].ended && #[trigger] st[i]
            == iterated(t, st[i - 1], o) by {
            assert(st[i] == rest[i - 1]);
            if i > 1 {
                assert(st[i - 1] == rest[i - 2]);
                assert(rest[i - 1] == iterated(t, rest[i - 2], o));
            }
        }
        st
    }
}

/// A state that ended for a degenerate model has one: a coefficient of the model is not finite, or
/// the denominator of the geometry step is damaged in a set that was just rescued.  No state has
/// ended for the number of iterations.
pub open spec fn breakdown_means(s: Run) -> bool {
    &&& s.ended ==> s.info != MAXTR_REACHED
    &&& s.ended && s.info == NAN_INF_MODEL ==> !s.m.usable()
    &&& s.ended && s.info == DAMAGING_ROUNDING ==> s.rescued && improvement_damaged(
        s.m,
        s.d,
        farthest(s.m),
    )
}

/// A rescue does not end the run for a degenerate model.
proof fn lemma_rescued_means(t: Task, s: Run, o: Oracle)
    requires
        !s.ended,
    ensures
        breakdown_means(rescued(t, s, o)),
{
    reveal(rescued);
    let r = rescue_prepared(s.m, s.delta, t.xl, t.xu);
    lemma_refilled_means(t, r, s.delta, s.log, o);
}

/// The evaluation of provisional points does not end for a degenerate model.
proof fn lemma_refilled_means(t: Task, r: Rescuing, delta: F64, log: Seq<Asked>, o: Oracle)
    ensures
        ({
            let info = refilled(t, r, delta, log, o).2;
            info != NAN_INF_MODEL && info != DAMAGING_ROUNDING && info != MAXTR_REACHED
        }),
    decreases r.ids.len() - r.kpt,
{
    let r1 = refill_sought(r, delta);
    if !(r1.kpt >= r1.ids.len() || r1.kpt >= usize::MAX) {
        let x = point_at(t, r1.m, r1.m.xpt[r1.kpt as int]);
        let f = value_from(log, x, o);
        let log1 = asked(log, x, o);
        let r2 = refill_valued(r1, f);
        let info = exit_code(t.set.maxfun, log1.len() as usize, f, t.set.ftarget, x);
        if info == INFO_DFT {
            lemma_refill_advances(r, delta);
            lemma_refilled_means(t, refill_updated(r2, f), delta, log1, o);
        }
    }
}

/// An iteration ends for a degenerate model only where there is one.
proof fn lemma_iterated_means(t: Task, s: Run, o: Oracle)
    requires
        !s.ended,
    ensures
        breakdown_means(iterated(t, s, o)),
{
    reveal(iterated);
    reveal(settled_down);
    reveal(sharpened);
    reveal(rebased);
    reveal(trial);
    reveal(stepped);
    reveal(shortened);
    reveal(tried);
    reveal(judged);
    reveal(carried_over);
    reveal(trial_placed);
    reveal(improved);
    reveal(improvement_tried);
    let a = stepped(s);
    let x = point_at(t, a.m, plus(a.m.xopt(), a.d));
    let e = Run { rescued: false, ..a.evaluated(x, o) };
    lemma_rescued_means(t, judged(t, e, -increment(a.m, a.d)), o);
    let s1 = trial(t, s, o);
    assert(breakdown_means(s1));
    if !s1.ended {
        lemma_rescued_means(t, Run { d: improving_step(s1), ..s1 }, o);
    }
}

/// The states of a run.  They go on until one has ended, and there are no more than `2 maxfun`
/// iterations, or as many as the machine can count.  A run ends at the budget, at the target, at
/// the final resolution or with a degenerate model, as its exit code tells; without an ended state
/// all those iterations were made.
pub proof fn lemma_run_goes_on(t: Task, npt: nat, x0: Seq<F64>, o: Oracle)
    requires
        posed(t, npt),
        x0.len() == t.xl.len(),
    ensures
        ({
            let s = begun(t, npt, x0, o);
            let r = solved(t, npt, x0, o);
            &&& s.ended ==> r == s && breakdown_means(r)
            &&& !s.ended ==> exists|st: Seq<Run>|
                {
                    &&& #[trigger] follows(t, s, st, o)
                    &&& breakdown_means(st.last())
                    &&& r.info == st.last().info
                    &&& r.m == st.last().m
                    &&& r.rho == st.last().rho
                    &&& st.last().ended <==> r.info != MAXTR_REACHED
                    &&& !st.last().ended ==> st.len() > 2 * t.set.maxfun || st.len() > usize::MAX
                }
        }),
{
    lemma_begun(t, npt, x0, o);
    let s = begun(t, npt, x0, o);
    if s.ended {
        lemma_begun_means(t, npt, x0, o);
    } else {
        let k = iteration_limit(t.set.maxfun);
        let st = lemma_iterations_follow(t, s, k, o);
        lemma_iterations(t, npt, s, k, o);
        if st.len() > 1 {
            let i = st.len() - 1;
            assert(st[i] == iterated(t, st[i - 1], o));
            lemma_iterated_means(t, st[i - 1], o);
        }
        lemma_closed_keeps(t, st.last(), o);
    }
}

/// The end of a run keeps the exit code, the set and the resolution.
proof fn lemma_closed_keeps(t: Task, s: Run, o: Oracle)
    ensures
        ({
            let r = chosen(t, last_step(t, s, o));
            r.info == s.info && r.m == s.m && r.rho == s.rho
        }),
{
    reveal(last_step);
    reveal(chosen);
}

/// The first state has ended for a degenerate model only where there is one.
proof fn lemma_begun_means(t: Task, npt: nat, x0: Seq<F64>, o: Oracle)
    requires
        posed(t, npt),
        x0.len() == t.xl.len(),
    ensures
        breakdown_means(begun(t, npt, x0, o)),
{
    reveal(begun);
    lemma_set_filled(t, npt, x0, o);
}

} // verus!
