//! The best value: a run ends with the least one of the values that were found.
use vstd::prelude::*;

use crate::bobyqb::course::alternative_tried;
use crate::bobyqb::course::asked;
use crate::bobyqb::course::base_moved;
use crate::bobyqb::course::begun;
use crate::bobyqb::course::carried_over;
use crate::bobyqb::course::chosen;
use crate::bobyqb::course::farthest;
use crate::bobyqb::course::improved;
use crate::bobyqb::course::improvement_damaged;
use crate::bobyqb::course::improvement_of;
use crate::bobyqb::course::improvement_tried;
use crate::bobyqb::course::improving_step;
use crate::bobyqb::course::increment;
use crate::bobyqb::course::iterated;
use crate::bobyqb::course::iteration_limit;
use crate::bobyqb::course::iterations;
use crate::bobyqb::course::judged;
use crate::bobyqb::course::last_step;
use crate::bobyqb::course::point_at;
use crate::bobyqb::course::rebased;
use crate::bobyqb::course::refilled;
use crate::bobyqb::course::rescued;
use crate::bobyqb::course::set_close;
use crate::bobyqb::course::settled_down;
use crate::bobyqb::course::sharpened;
use crate::bobyqb::course::shortened;
use crate::bobyqb::course::solved;
use crate::bobyqb::course::spread;
use crate::bobyqb::course::step_denominators;
use crate::bobyqb::course::step_fails;
use crate::bobyqb::course::stepped;
use crate::bobyqb::course::trial;
use crate::bobyqb::course::trial_damaged;
use crate::bobyqb::course::trial_placed;
use crate::bobyqb::course::tried;
use crate::bobyqb::course::value_from;
use crate::bobyqb::course::wants_geometry;
use crate::bobyqb::course::Asked;
use crate::bobyqb::course::Oracle;
use crate::bobyqb::course::Run;
use crate::bobyqb::course::Task;
use crate::bobyqb::drift::allowance;
use crate::bobyqb::drift::lemma_allowance_room;
use crate::bobyqb::drift::lemma_begun_paid;
use crate::bobyqb::drift::lemma_iterated_paid;
use crate::bobyqb::drift::lemma_iterations_log;
use crate::bobyqb::drift::LONG_RUN;
use crate::bobyqb::laws::in_order;
use crate::bobyqb::laws::inside;
use crate::bobyqb::laws::is_least;
use crate::bobyqb::laws::lemma_asked;
use crate::bobyqb::laws::lemma_begun;
use crate::bobyqb::laws::lemma_evaluated;
use crate::bobyqb::laws::lemma_exit_test;
use crate::bobyqb::laws::lemma_found_finite;
use crate::bobyqb::laws::lemma_improved;
use crate::bobyqb::laws::lemma_iterated;
use crate::bobyqb::laws::lemma_iterations;
use crate::bobyqb::laws::lemma_point_inside;
use crate::bobyqb::laws::lemma_prepared;
use crate::bobyqb::laws::lemma_refilled;
use crate::bobyqb::laws::lemma_replaced;
use crate::bobyqb::laws::lemma_rescued;
use crate::bobyqb::laws::lemma_sought;
use crate::bobyqb::laws::lemma_trial;
use crate::bobyqb::laws::posed;
use crate::bobyqb::laws::set_found;
use crate::bobyqb::laws::set_sized;
use crate::bobyqb::laws::short_of;
use crate::bobyqb::laws::used;
use crate::bobyqb::laws::was_found;
use crate::bobyqb::span::bounded;
use crate::bobyqb::span::lemma_iterated_bounded;
use crate::bobyqb::span::lemma_spread_real;
use crate::bobyqb::span::radii_positive;
use crate::bobyqb::span::roomy;
use crate::consts::ten;
use crate::consts::zero;
use crate::consts::INFO_DFT;
use crate::consts::SMALL_TR_RADIUS;
use crate::float::arith::lemma_nan_stays;
use crate::float::arith::lemma_product_real;
use crate::float::arith::lemma_self_difference;
use crate::float::arith::lemma_square_sign;
use crate::float::arith::lemma_zero_square;
use crate::float::near::half_ulp;
use crate::float::near::top;
use crate::float::order::at_most;
use crate::float::order::below;
use crate::float::order::max_of;
use crate::float::F64;
use crate::geometry::lemma_drop_choice;
use crate::geometry::lemma_first_max_above;
use crate::geometry::lemma_geometry_len;
use crate::geometry::point_to_drop;
use crate::rescue::lemma_refill_advances;
use crate::rescue::refill_sought;
use crate::rescue::refill_updated;
use crate::rescue::refill_valued;
use crate::rescue::rescue_prepared;
use crate::rescue::Rescuing;
use crate::util::exit_code;
use crate::vector::any_nan;
use crate::vector::dot_from;
use crate::vector::lemma_first_in_range;
use crate::vector::minus;
use crate::vector::plus;

verus! {

/// One of the two values is not above any that was found, for each of those.
spec fn bested(f: F64, fopt: F64, log: Seq<Asked>) -> bool {
    forall|k: int|
        0 <= k < log.len() ==> fopt <= used(#[trigger] log[k]) || f <= used(log[k])
}

/// The best value after provisional points are evaluated is not above the one before, nor above
/// any of theirs.
proof fn lemma_refilled_best(t: Task, npt: nat, r: Rescuing, delta: F64, log: Seq<Asked>, o: Oracle)
    requires
        posed(t, npt),
        set_sized(r.m, t.xl.len(), npt),
        r.ids.len() == npt,
        r.ids[r.m.kopt as int] is None,
        r.a1.len() == t.xl.len(),
        0 < log.len() < t.set.maxfun,
        inside(t, log),
        set_found(r.m, log),
        short_of(t.set.ftarget, log, log.len() as int),
    ensures
        ({
            let (m, after, info) = refilled(t, r, delta, log, o);
            &&& m.fopt() <= r.m.fopt()
            &&& forall|k: int|
                log.len() <= k < after.len() ==> m.fopt() <= used(#[trigger] after[k])
        }),
    decreases r.ids.len() - r.kpt,
{
    let n = t.xl.len();
    let r1 = refill_sought(r, delta);
    lemma_sought(r, delta, n, npt);
    lemma_refill_advances(r, delta);
    assert(was_found(r.m.fval[r.m.kopt as int], log));
    lemma_found_finite(r.m.fopt(), log);
    reveal(below);
    reveal(at_most);
    if r1.kpt >= r1.ids.len() || r1.kpt >= usize::MAX {
    } else {
        let k = r1.kpt as int;
        let x = point_at(t, r1.m, r1.m.xpt[k]);
        lemma_point_inside(t, r1.m, r1.m.xpt[k]);
        let f = value_from(log, x, o);
        let log1 = asked(log, x, o);
        lemma_asked(t, log, x, o);
        let r2 = refill_valued(r1, f);
        let info = exit_code(t.set.maxfun, log1.len() as usize, f, t.set.ftarget, x);
        lemma_exit_test(t, log, x, o, info);
        assert(r2.m.fopt() <= r.m.fopt() && r2.m.fopt() <= f);
        if info == INFO_DFT {
            assert forall|j: int| 0 <= j < r2.m.fval.len() implies was_found(
                #[trigger] r2.m.fval[j],
                log1,
            ) by {
                if j != k {
                    assert(r2.m.fval[j] == r.m.fval[j]);
                    assert(was_found(r.m.fval[j], log));
                }
            }
            let r3 = refill_updated(r2, f);
            lemma_refilled(t, npt, r3, delta, log1, o);
            lemma_refilled_best(t, npt, r3, delta, log1, o);
        }
    }
}

/// A rescue leaves no value below the better one of `f` and the best value.
proof fn lemma_rescued_best(t: Task, npt: nat, s: Run, o: Oracle)
    requires
        posed(t, npt),
        in_order(t, npt, s),
        !s.ended,
    ensures
        ({
            let s1 = rescued(t, s, o);
            &&& bested(s.f, s.m.fopt(), s.log) ==> bested(s1.f, s1.m.fopt(), s1.log)
            &&& is_least(s.m.fopt(), s.log) ==> is_least(s1.m.fopt(), s1.log)
            &&& s1.ended ==> s1.info != SMALL_TR_RADIUS
        }),
{
    reveal(rescued);
    let n = t.xl.len();
    let r = rescue_prepared(s.m, s.delta, t.xl, t.xu);
    lemma_prepared(s.m, s.delta, t.xl, t.xu, n, npt);
    assert(set_found(r.m, s.log)) by {
        assert(r.m.fval == s.m.fval);
    }
    lemma_refilled(t, npt, r, s.delta, s.log, o);
    lemma_refilled_best(t, npt, r, s.delta, s.log, o);
    reveal(at_most);
}

/// Taking the trial point into the set makes the better one of its value and the best value the
/// best value.
proof fn lemma_placed_best(t: Task, npt: nat, s: Run, moderr: F64)
    requires
        posed(t, npt),
        in_order(t, npt, s),
        !s.ended,
        bested(s.f, s.m.fopt(), s.log),
    ensures
        is_least(trial_placed(t, s, moderr).m.fopt(), s.log),
        trial_placed(t, s, moderr).log == s.log,
        trial_placed(t, s, moderr).f == s.f,
        trial_placed(t, s, moderr).rho == s.rho,
{
    reveal(trial_placed);
    reveal(alternative_tried);
    reveal(below);
    reveal(at_most);
    let m = s.m;
    let ximproved = s.f < m.fopt();
    let den = step_denominators(m, s.d);
    lemma_drop_choice(m.kopt as int, ximproved, s.d, s.rho, m.xpt, den);
    assert(was_found(m.fval[m.kopt as int], s.log));
    lemma_found_finite(m.fopt(), s.log);
    lemma_found_finite(s.f, s.log);
    match point_to_drop(m.kopt as int, ximproved, s.d, s.rho, m.xpt, den) {
        None => {},
        Some(k) => {
            lemma_replaced(
                m,
                k as usize,
                s.d,
                s.f,
                moderr,
                ximproved,
                s.log,
                t.xl.len(),
                npt,
            );
        },
    }
}

/// After the trust-region part, the best value of the set is the least one, or the last value
/// is, where the run ends.
proof fn lemma_trial_best(t: Task, npt: nat, s: Run, o: Oracle)
    requires
        posed(t, npt),
        in_order(t, npt, s),
        !s.ended,
        is_least(s.m.fopt(), s.log),
    ensures
        ({
            let s1 = trial(t, s, o);
            &&& bested(s1.f, s1.m.fopt(), s1.log)
            &&& !s1.ended || s1.info == SMALL_TR_RADIUS ==> is_least(s1.m.fopt(), s1.log)
            &&& s1.rho == s.rho
        }),
{
    reveal(trial);
    reveal(stepped);
    reveal(shortened);
    reveal(tried);
    reveal(judged);
    reveal(carried_over);
    reveal(at_most);
    let n = t.xl.len();
    assert(s.m.xpt[s.m.kopt as int].len() == n);
    let s1 = stepped(s);
    assert(in_order(t, npt, s1));
    if !(s1.shortd || step_fails(s1)) {
        let qred = -increment(s1.m, s1.d);
        let step = plus(s1.m.xopt(), s1.d);
        let x = point_at(t, s1.m, step);
        lemma_point_inside(t, s1.m, step);
        let e = s1.evaluated(x, o);
        let info = exit_code(t.set.maxfun, e.log.len() as usize, e.f, t.set.ftarget, x);
        lemma_evaluated(t, npt, s1, x, o, info);
        assert(bested(e.f, e.m.fopt(), e.log));
        if info == INFO_DFT {
            let s3 = judged(t, Run { rescued: false, ..e }, qred);
            assert(in_order(t, npt, s3));
            if s3.f < s3.m.fopt() && trial_damaged(s3.m, s3.d) {
                lemma_rescued(t, npt, s3, o);
                lemma_rescued_best(t, npt, s3, o);
                let s4 = rescued(t, s3, o);
                assert(s4.rho == s3.rho) by {
                    reveal(rescued);
                }
                if !s4.ended {
                    let s5 = carried_over(s4);
                    assert(in_order(t, npt, s5));
                    lemma_placed_best(
                        t,
                        npt,
                        s5,
                        s5.f - s5.m.fopt() - increment(s5.m, s5.d),
                    );
                }
            } else {
                lemma_placed_best(t, npt, s3, s3.f - s3.m.fopt() + qred);
            }
        }
    }
}

/// A sum of squares of differences of numbers from themselves is zero, or NaN.
proof fn lemma_no_distance(x: Seq<F64>, k: nat)
    requires
        k <= x.len(),
    ensures
        ({
            let z = minus(x, x);
            let v = dot_from(zero(), z, z, k);
            v == zero() || v.nan()
        }),
    decreases k,
{
    if k > 0 {
        lemma_no_distance(x, (k - 1) as nat);
        let z = minus(x, x);
        let e = z[k - 1];
        let before = dot_from(zero(), z, z, (k - 1) as nat);
        assert(e == x[k - 1] - x[k - 1]);
        lemma_self_difference(x[k - 1]);
        lemma_zero_square();
        if e.nan() {
            lemma_nan_stays(e, e);
            lemma_nan_stays(e * e, before);
        }
        if before.nan() {
            lemma_nan_stays(before, e * e);
        }
    }
}

/// The point that the geometry step replaces is not the best one, if the distances are numbers
/// and not all of them are small.
pub(crate) proof fn lemma_farthest(s: Run, npt: nat)
    requires
        s.m.xpt.len() == npt,
        s.m.kopt < npt,
        !any_nan(spread(s.m)),
        !set_close(s),
        !s.rho.nan(),
    ensures
        farthest(s.m) != s.m.kopt,
        0 <= farthest(s.m) < npt,
{
    let d = spread(s.m);
    let x = s.m.xopt();
    let c = (ten() * s.rho) * (ten() * s.rho);
    lemma_product_real(ten(), s.rho);
    lemma_square_sign(ten() * s.rho);
    lemma_no_distance(x, x.len());
    assert(d[s.m.kopt as int] == zero()) by {
        assert(!d[s.m.kopt as int].nan());
    }
    reveal(below);
    reveal(at_most);
    reveal(max_of);
    let bound = max_of(s.delta * s.delta, c);
    let i = choose|i: int| 0 <= i < d.len() && !(#[trigger] d[i] <= bound);
    assert(d[i] > zero());
    lemma_first_max_above(d, npt, zero(), i);
}

/// The geometry part keeps the best value the least one.
proof fn lemma_improved_best(t: Task, npt: nat, s: Run, o: Oracle)
    requires
        posed(t, npt),
        in_order(t, npt, s),
        !s.ended,
        is_least(s.m.fopt(), s.log),
        farthest(s.m) != s.m.kopt,
    ensures
        ({
            let s1 = improved(t, s, o);
            &&& bested(s1.f, s1.m.fopt(), s1.log)
            &&& !s1.ended || s1.info == SMALL_TR_RADIUS ==> is_least(s1.m.fopt(), s1.log)
            &&& s1.rho == s.rho
        }),
{
    reveal(improved);
    reveal(improvement_tried);
    reveal(at_most);
    reveal(below);
    let n = t.xl.len();
    let k = farthest(s.m);
    lemma_first_in_range(spread(s.m), npt);
    assert(s.m.xpt[s.m.kopt as int].len() == n);
    assert(s.m.xpt[k].len() == n);
    let s1 = Run { d: improving_step(s), ..s };
    lemma_geometry_len(improvement_of(s));
    assert(in_order(t, npt, s1));
    assert(was_found(s.m.fval[s.m.kopt as int], s.log));
    lemma_found_finite(s.m.fopt(), s.log);
    if improvement_damaged(s1.m, s1.d, k) {
        if !s1.rescued {
            lemma_rescued_best(t, npt, s1, o);
            assert(rescued(t, s1, o).rho == s.rho) by {
                reveal(rescued);
            }
        }
    } else {
        let step = plus(s1.m.xopt(), s1.d);
        let x = point_at(t, s1.m, step);
        lemma_point_inside(t, s1.m, step);
        let e = s1.evaluated(x, o);
        let info = exit_code(t.set.maxfun, e.log.len() as usize, e.f, t.set.ftarget, x);
        lemma_evaluated(t, npt, s1, x, o, info);
        if info == INFO_DFT {
            let moderr = e.f - e.m.fopt() - increment(e.m, e.d);
            lemma_replaced(e.m, k as usize, e.d, e.f, moderr, e.f < e.m.fopt(), e.log, n, npt);
        }
    }
}

/// An iteration keeps the best value the least one.
proof fn lemma_iterated_best(t: Task, npt: nat, s: Run, o: Oracle, w: int)
    requires
        posed(t, npt),
        radii_positive(t),
        in_order(t, npt, s),
        !s.ended,
        is_least(s.m.fopt(), s.log),
        bounded(s, w),
        w + 4 * half_ulp() <= top(),
    ensures
        ({
            let s1 = iterated(t, s, o);
            &&& bested(s1.f, s1.m.fopt(), s1.log)
            &&& !s1.ended || s1.info == SMALL_TR_RADIUS ==> is_least(s1.m.fopt(), s1.log)
        }),
{
    reveal(iterated);
    reveal(settled_down);
    reveal(sharpened);
    reveal(rebased);
    reveal(base_moved);
    lemma_trial(t, npt, s, o);
    lemma_trial_best(t, npt, s, o);
    lemma_iterated_bounded(t, npt, s, o, w);
    let s1 = trial(t, s, o);
    if !s1.ended {
        let failed = step_fails(stepped(s));
        let geometry = wants_geometry(t, s1, failed);
        if geometry {
            lemma_spread_real(s1.m, t.xl.len(), npt, w + 2 * half_ulp());
            lemma_farthest(s1, npt);
            lemma_improved(t, npt, s1, o);
            lemma_improved_best(t, npt, s1, o);
        }
    }
}

/// Iterations keep the best value the least one.
proof fn lemma_iterations_best(t: Task, npt: nat, s: Run, k: nat, o: Oracle)
    requires
        posed(t, npt),
        radii_positive(t),
        in_order(t, npt, s),
        bested(s.f, s.m.fopt(), s.log),
        !s.ended || s.info == SMALL_TR_RADIUS ==> is_least(s.m.fopt(), s.log),
        bounded(s, allowance(s)),
        iterations(t, s, k, o).log.len() <= LONG_RUN,
    ensures
        ({
            let s1 = iterations(t, s, k, o);
            &&& bested(s1.f, s1.m.fopt(), s1.log)
            &&& s1.info == SMALL_TR_RADIUS ==> is_least(s1.m.fopt(), s1.log)
        }),
    decreases k,
{
    if k > 0 && !s.ended {
        lemma_iterated(t, npt, s, o);
        lemma_iterations_log(t, s, k, o);
        lemma_allowance_room(s);
        lemma_iterated_best(t, npt, s, o, allowance(s));
        lemma_iterated_paid(t, npt, s, o);
        lemma_iterations_best(t, npt, iterated(t, s, o), (k - 1) as nat, o);
    }
}

/// A run that is not too long ends with the least one of the values that were found.
pub proof fn lemma_best_value(t: Task, npt: nat, x0: Seq<F64>, o: Oracle)
    requires
        posed(t, npt),
        x0.len() == t.xl.len(),
        2 * npt <= (t.xl.len() + 1) * (t.xl.len() + 2),
        roomy(t),
        radii_positive(t),
        solved(t, npt, x0, o).log.len() <= LONG_RUN,
    ensures
        is_least(solved(t, npt, x0, o).f, solved(t, npt, x0, o).log),
{
    reveal(last_step);
    reveal(chosen);
    reveal(below);
    reveal(at_most);
    lemma_begun(t, npt, x0, o);
    let s = begun(t, npt, x0, o);
    if !s.ended {
        let k = iteration_limit(t.set.maxfun);
        lemma_begun_paid(t, npt, x0, o);
        lemma_iterations(t, npt, s, k, o);
        lemma_iterations_best(t, npt, s, k, o);
        let s1 = iterations(t, s, k, o);
        let x = point_at(t, s1.m, plus(s1.m.xopt(), s1.d));
        lemma_point_inside(t, s1.m, plus(s1.m.xopt(), s1.d));
        lemma_asked(t, s1.log, x, o);
        assert(was_found(s1.m.fval[s1.m.kopt as int], s1.log));
        lemma_found_finite(s1.m.fopt(), s1.log);
        lemma_found_finite(s1.f, s1.log);
    }
}

} // verus!
