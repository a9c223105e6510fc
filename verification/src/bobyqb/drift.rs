//! How far roundings move the bounds of the interpolation set: no more than the evaluations pay
//! for.
//!
//! The base point moves in a rescue, and between iterations where the best point is away from
//! it.  A second rescue or a second move of that kind takes an evaluation first, so that the
//! distance between the bounds grows with the number of evaluations, whatever the number of
//! iterations is.
use vstd::prelude::*;

use crate::bobyqb::course::asked;
use crate::bobyqb::course::base_moved;
use crate::bobyqb::course::begun;
use crate::bobyqb::course::carried_over;
use crate::bobyqb::course::farthest;
use crate::bobyqb::course::goes_on;
use crate::bobyqb::course::improved;
use crate::bobyqb::course::improvement_damaged;
use crate::bobyqb::course::improvement_tried;
use crate::bobyqb::course::improving_step;
use crate::bobyqb::course::increment;
use crate::bobyqb::course::iterated;
use crate::bobyqb::course::iterations;
use crate::bobyqb::course::judged;
use crate::bobyqb::course::point_at;
use crate::bobyqb::course::rebased;
use crate::bobyqb::course::refilled;
use crate::bobyqb::course::rescued;
use crate::bobyqb::course::settled_down;
use crate::bobyqb::course::sharpened;
use crate::bobyqb::course::shortened;
use crate::bobyqb::course::step_fails;
use crate::bobyqb::course::stepped;
use crate::bobyqb::course::trial;
use crate::bobyqb::course::trial_placed;
use crate::bobyqb::course::tried;
use crate::bobyqb::course::value_from;
use crate::bobyqb::course::wants_geometry;
use crate::bobyqb::course::wants_reduction;
use crate::bobyqb::course::Asked;
use crate::bobyqb::course::Oracle;
use crate::bobyqb::course::Run;
use crate::bobyqb::course::Task;
use crate::bobyqb::laws::in_order;
use crate::bobyqb::laws::lemma_improved;
use crate::bobyqb::laws::lemma_trial;
use crate::bobyqb::laws::posed;
use crate::bobyqb::laws::set_sized;
use crate::bobyqb::span::bounded;
use crate::bobyqb::span::centred;
use crate::bobyqb::span::lemma_begun_bounded;
use crate::bobyqb::span::lemma_contained_same;
use crate::bobyqb::span::lemma_contained_wider;
use crate::bobyqb::span::lemma_iterated_bounded;
use crate::bobyqb::span::lemma_moved_contained;
use crate::bobyqb::span::lemma_reach;
use crate::bobyqb::span::lemma_rescued_contained;
use crate::bobyqb::span::lemma_sharpened_bounded;
use crate::bobyqb::span::radii_positive;
use crate::bobyqb::span::roomy;
use crate::bobyqb::span::start_width;
use crate::consts::tenth;
use crate::consts::INFO_DFT;
use crate::float::arith::lemma_sign_stays;
use crate::float::near::half_ulp;
use crate::float::near::top;
use crate::float::F64;
use crate::rescue::lemma_refill_advances;
use crate::rescue::refill_sought;
use crate::rescue::refill_updated;
use crate::rescue::refill_valued;
use crate::rescue::rescue_prepared;
use crate::rescue::Rescuing;
use crate::util::exit_code;
use crate::vector::plus;

verus! {

/// A log that goes on from one that goes on from a third goes on from that.
pub(crate) proof fn lemma_goes_on(a: Seq<Asked>, b: Seq<Asked>, c: Seq<Asked>)
    requires
        goes_on(a, b),
        goes_on(b, c),
    ensures
        goes_on(a, c),
{
    assert forall|k: int| 0 <= k < a.len() implies #[trigger] a[k] == c[k] by {
        assert(a[k] == b[k]);
        assert(b[k] == c[k]);
    }
}

/// The evaluation of provisional points adds to the log.
proof fn lemma_refilled_log(t: Task, r: Rescuing, delta: F64, log: Seq<Asked>, o: Oracle)
    ensures
        goes_on(log, refilled(t, r, delta, log, o).1),
        refilled(t, r, delta, log, o).2 != INFO_DFT ==> refilled(t, r, delta, log, o).1.len()
            > log.len(),
    decreases r.ids.len() - r.kpt,
{
    let r1 = refill_sought(r, delta);
    lemma_refill_advances(r, delta);
    if !(r1.kpt >= r1.ids.len() || r1.kpt >= usize::MAX) {
        let x = point_at(t, r1.m, r1.m.xpt[r1.kpt as int]);
        let f = value_from(log, x, o);
        let log1 = asked(log, x, o);
        let r2 = refill_valued(r1, f);
        let info = exit_code(t.set.maxfun, log1.len() as usize, f, t.set.ftarget, x);
        assert(goes_on(log, log1));
        if info == INFO_DFT {
            lemma_refilled_log(t, refill_updated(r2, f), delta, log1, o);
            lemma_goes_on(log, log1, refilled(t, refill_updated(r2, f), delta, log1, o).1);
        }
    }
}

/// A rescue adds to the log; where it adds nothing, the run goes on with the rescue noted, or
/// the set stays where it is.
pub(crate) proof fn lemma_rescued_log(t: Task, s: Run, o: Oracle)
    ensures
        ({
            let s1 = rescued(t, s, o);
            &&& goes_on(s.log, s1.log)
            &&& s1.log.len() == s.log.len() ==> s1.rescued || {
                &&& s1.ended
                &&& s1.rescued == s.rescued
                &&& s1.m.xpt == s.m.xpt
                &&& s1.m.kopt == s.m.kopt
                &&& s1.m.sl == s.m.sl
                &&& s1.m.su == s.m.su
            }
        }),
{
    reveal(rescued);
    if s.log.len() < t.set.maxfun {
        let r = rescue_prepared(s.m, s.delta, t.xl, t.xu);
        lemma_refilled_log(t, r, s.delta, s.log, o);
    }
}

/// The trust-region part adds to the log, unless the step is not evaluated.
pub(crate) proof fn lemma_trial_log(t: Task, s: Run, o: Oracle)
    ensures
        ({
            let s1 = stepped(s);
            if s1.shortd || step_fails(s1) {
                trial(t, s, o).log == s.log
            } else {
                goes_on(s.log, trial(t, s, o).log) && trial(t, s, o).log.len() > s.log.len()
            }
        }),
{
    reveal(trial);
    reveal(stepped);
    reveal(shortened);
    reveal(tried);
    reveal(judged);
    reveal(carried_over);
    reveal(trial_placed);
    let s1 = stepped(s);
    let x = point_at(t, s1.m, plus(s1.m.xopt(), s1.d));
    let s2 = Run { rescued: false, ..s1.evaluated(x, o) };
    let qred = -increment(s1.m, s1.d);
    lemma_rescued_log(t, judged(t, s2, qred), o);
    assert(goes_on(s.log, s2.log));
    lemma_goes_on(s.log, s2.log, rescued(t, judged(t, s2, qred), o).log);
}

/// The geometry part adds to the log, unless rounding damages the step.
pub(crate) proof fn lemma_improved_log(t: Task, s: Run, o: Oracle)
    ensures
        goes_on(s.log, improved(t, s, o).log),
        !improvement_damaged(s.m, improving_step(s), farthest(s.m)) ==> improved(
            t,
            s,
            o,
        ).log.len() > s.log.len(),
{
    reveal(improved);
    reveal(improvement_tried);
    lemma_rescued_log(t, Run { d: improving_step(s), ..s }, o);
}

/// The part of an iteration that follows the trial step adds to the log what the geometry part
/// does.
pub(crate) proof fn lemma_settled_log(t: Task, s: Run, failed: bool, o: Oracle)
    ensures
        settled_down(t, s, failed, o).log == (if wants_geometry(t, s, failed) {
            improved(t, s, o).log
        } else {
            s.log
        }),
{
    reveal(settled_down);
    reveal(sharpened);
    reveal(rebased);
}

/// An iteration adds to the log.
proof fn lemma_iterated_log(t: Task, s: Run, o: Oracle)
    ensures
        goes_on(s.log, iterated(t, s, o).log),
{
    reveal(iterated);
    let s1 = trial(t, s, o);
    lemma_trial_log(t, s, o);
    lemma_improved_log(t, s1, o);
    lemma_settled_log(t, s1, step_fails(stepped(s)), o);
    lemma_goes_on(s.log, s1.log, improved(t, s1, o).log);
}

/// Iterations add to the log.
pub(crate) proof fn lemma_iterations_log(t: Task, s: Run, k: nat, o: Oracle)
    ensures
        goes_on(s.log, iterations(t, s, k, o).log),
    decreases k,
{
    if k > 0 && !s.ended {
        lemma_iterated_log(t, s, o);
        lemma_iterations_log(t, iterated(t, s, o), (k - 1) as nat, o);
        lemma_goes_on(s.log, iterated(t, s, o).log, iterations(t, s, k, o).log);
    }
}

/// The number of moves of the base point that a run can make without an evaluation, with one
/// more for the place of the best point after a rescue.
pub open spec fn credit(s: Run) -> int {
    (if s.rescued {
        0int
    } else {
        2
    }) + (if centred(s.m) {
        0int
    } else {
        1
    })
}

/// The distance that the bounds of a run can have.
pub open spec fn allowance(s: Run) -> int {
    start_width() + (12 * s.log.len() + 6 - 2 * credit(s)) * half_ulp()
}

/// The number of evaluations up to which rounding cannot move the bounds out of range.
pub const LONG_RUN: u64 = 0x1_0000_0000_0000;

/// The allowance leaves room for one more iteration in a run that is not too long.
pub proof fn lemma_allowance_room(s: Run)
    requires
        s.log.len() <= LONG_RUN,
    ensures
        allowance(s) + 6 * half_ulp() <= top(),
{
    lemma_reach();
    let h = half_ulp();
    let k = 12 * s.log.len() + 6 - 2 * credit(s);
    assert(k <= 0xc_0000_0000_0006);
    assert(k * h <= 0xc_0000_0000_0006 * h) by (nonlinear_arith)
        requires
            k <= 0xc_0000_0000_0006,
            h >= 0,
    ;
    assert(allowance(s) == start_width() + k * h);
}

/// A move of the base point to the best point of a run, where it is away from it, is paid for.
proof fn lemma_rebased_paid(t: Task, npt: nat, s: Run, w: int)
    requires
        set_sized(s.m, t.xl.len(), npt),
        bounded(s, w),
        w <= top(),
    ensures
        bounded(
            rebased(t, s),
            w + 2 * (credit(s) - credit(rebased(t, s))) * half_ulp(),
        ),
{
    reveal(rebased);
    reveal(base_moved);
    let n = t.xl.len();
    assert(s.m.xpt[s.m.kopt as int].len() == n);
    let m = base_moved(t, s.m);
    lemma_moved_contained(s.m, m, n, npt, w);
}

/// The geometry part of an iteration that evaluates nothing is paid for.
proof fn lemma_improved_paid(t: Task, npt: nat, s: Run, o: Oracle, w: int)
    requires
        posed(t, npt),
        in_order(t, npt, s),
        !s.ended,
        bounded(s, w),
        w <= top(),
        improved(t, s, o).log.len() == s.log.len(),
    ensures
        credit(improved(t, s, o)) <= credit(s),
        bounded(
            improved(t, s, o),
            w + 2 * (credit(s) - credit(improved(t, s, o))) * half_ulp(),
        ),
{
    reveal(improved);
    lemma_reach();
    lemma_improved_log(t, s, o);
    let s1 = Run { d: improving_step(s), ..s };
    if !s1.rescued {
        let s2 = rescued(t, s1, o);
        lemma_rescued_log(t, s1, o);
        lemma_rescued_contained(t, npt, s1, o, w);
        if s2.rescued {
            let v = w + 2 * (credit(s) - credit(s2)) * half_ulp();
            let c = credit(s) - credit(s2);
            assert(2 * c * half_ulp() >= 2 * half_ulp()) by (nonlinear_arith)
                requires
                    c >= 1,
                    half_ulp() > 0,
            ;
            lemma_contained_wider(s2.m, w + 2 * half_ulp(), v);
        } else {
            lemma_contained_same(s.m, s2.m, w);
        }
    }
}

/// A run begins within its allowance.
pub(crate) proof fn lemma_begun_paid(t: Task, npt: nat, x0: Seq<F64>, o: Oracle)
    requires
        0 < t.xl.len() <= usize::MAX,
        t.xl.len() + 2 <= npt,
        2 * npt <= (t.xl.len() + 1) * (t.xl.len() + 2),
        roomy(t),
        radii_positive(t),
    ensures
        bounded(begun(t, npt, x0, o), allowance(begun(t, npt, x0, o))),
{
    let s = begun(t, npt, x0, o);
    lemma_reach();
    lemma_begun_bounded(t, npt, x0, o);
    let a = 12 * s.log.len() + 6 - 2 * credit(s);
    assert(a * half_ulp() >= 0) by (nonlinear_arith)
        requires
            a >= 0,
            half_ulp() > 0,
    ;
    lemma_contained_wider(s.m, start_width(), allowance(s));
}

/// An iteration is paid for: by its evaluations, or by the credit of the run.
pub(crate) proof fn lemma_iterated_paid(t: Task, npt: nat, s: Run, o: Oracle)
    requires
        posed(t, npt),
        radii_positive(t),
        in_order(t, npt, s),
        !s.ended,
        bounded(s, allowance(s)),
        s.log.len() <= LONG_RUN,
    ensures
        bounded(iterated(t, s, o), allowance(iterated(t, s, o))),
{
    lemma_allowance_room(s);
    lemma_reach();
    lemma_iterated_log(t, s, o);
    lemma_iterated_bounded(t, npt, s, o, allowance(s));
    let s1 = iterated(t, s, o);
    let h = half_ulp();
    let w = allowance(s);
    if s1.log.len() > s.log.len() {
        let a = 12 * s.log.len() + 6 - 2 * credit(s);
        let b = 12 * s1.log.len() + 6 - 2 * credit(s1);
        assert(a * h + 6 * h <= b * h) by (nonlinear_arith)
            requires
                a + 6 <= b,
                h >= 0,
        ;
        lemma_contained_wider(s1.m, w + 6 * h, allowance(s1));
    } else {
        lemma_quiet_paid(t, npt, s, o, w);
        let a = 12 * s.log.len() + 6;
        let c = credit(s);
        let c1 = credit(s1);
        assert((a - 2 * c) * h + 2 * (c - c1) * h == (a - 2 * c1) * h) by (nonlinear_arith);
    }
}

/// An iteration that evaluates nothing is paid for by the credit of the run.
proof fn lemma_quiet_paid(t: Task, npt: nat, s: Run, o: Oracle, w: int)
    requires
        posed(t, npt),
        radii_positive(t),
        in_order(t, npt, s),
        !s.ended,
        bounded(s, w),
        w + 6 * half_ulp() <= top(),
        iterated(t, s, o).log.len() == s.log.len(),
    ensures
        bounded(
            iterated(t, s, o),
            w + 2 * (credit(s) - credit(iterated(t, s, o))) * half_ulp(),
        ),
{
    let s1 = trial(t, s, o);
    let failed = step_fails(stepped(s));
    lemma_reach();
    lemma_trial(t, npt, s, o);
    lemma_trial_log(t, s, o);
    lemma_improved_log(t, s1, o);
    lemma_settled_log(t, s1, failed, o);
    reveal(iterated);
    assert(s1.m == s.m && s1.rescued == s.rescued && bounded(s1, w) && !s1.ended) by {
        reveal(trial);
        reveal(stepped);
        reveal(shortened);
        lemma_sign_stays(tenth(), s.delta);
    }
    reveal(settled_down);
    let s2 = if wants_geometry(t, s1, failed) {
        improved(t, s1, o)
    } else {
        s1
    };
    let h = half_ulp();
    let c = credit(s);
    let c2 = credit(s2);
    let w2 = w + 2 * (c - c2) * h;
    if wants_geometry(t, s1, failed) {
        lemma_improved(t, npt, s1, o);
        lemma_improved_paid(t, npt, s1, o, w);
    }
    assert(0 <= 2 * (c - c2) * h <= 6 * h) by (nonlinear_arith)
        requires
            0 <= c - c2 <= 3,
            h >= 0,
    ;
    if !s2.ended {
        let s3 = if wants_reduction(s1, failed) {
            sharpened(t, s2)
        } else {
            s2
        };
        lemma_sharpened_bounded(t, s2, w2);
        if !s3.ended {
            lemma_rebased_paid(t, npt, s3, w2);
            let c4 = credit(rebased(t, s3));
            assert(2 * (c - c2) * h + 2 * (c2 - c4) * h == 2 * (c - c4) * h)
                by (nonlinear_arith);
        }
    }
}

} // verus!
