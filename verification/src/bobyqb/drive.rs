//! What drives a run on: which steps are evaluated, and that no iteration is idle.
use vstd::arithmetic::power2::lemma_pow2_pos;
use vstd::arithmetic::power2::pow2;
use vstd::prelude::*;

use crate::bobyqb::course::asked;
use crate::bobyqb::course::carried_over;
use crate::bobyqb::course::geometry_adequate;
use crate::bobyqb::course::goes_on;
use crate::bobyqb::course::improved;
use crate::bobyqb::course::improving_step;
use crate::bobyqb::course::increment;
use crate::bobyqb::course::iterated;
use crate::bobyqb::course::judged;
use crate::bobyqb::course::point_at;
use crate::bobyqb::course::point_replaced;
use crate::bobyqb::course::rebased;
use crate::bobyqb::course::rescued;
use crate::bobyqb::course::settled_down;
use crate::bobyqb::course::sharpened;
use crate::bobyqb::course::shortened;
use crate::bobyqb::course::step_fails;
use crate::bobyqb::course::stepped;
use crate::bobyqb::course::subproblem;
use crate::bobyqb::course::trial;
use crate::bobyqb::course::trial_placed;
use crate::bobyqb::course::tried;
use crate::bobyqb::course::wants_geometry;
use crate::bobyqb::course::wants_reduction;
use crate::bobyqb::course::Oracle;
use crate::bobyqb::course::Run;
use crate::bobyqb::course::Task;
use crate::bobyqb::drift::lemma_goes_on;
use crate::bobyqb::drift::lemma_improved_log;
use crate::bobyqb::drift::lemma_rescued_log;
use crate::bobyqb::drift::lemma_settled_log;
use crate::bobyqb::drift::lemma_trial_log;
use crate::bobyqb::lemma_resolution_falls;
use crate::consts::half;
use crate::consts::reduction_floor;
use crate::consts::tenth;
use crate::consts::zero;
use crate::float::arith::lemma_fields;
use crate::float::arith::product_of;
use crate::float::convert::unity;
use crate::float::expo;
use crate::float::near::lemma_predecessor;
use crate::float::near::lemma_round_beside;
use crate::float::near::lemma_round_zero_below;
use crate::float::order::at_most;
use crate::float::order::below;
use crate::float::order::max_of;
use crate::float::order::min_of;
use crate::float::sig;
use crate::float::units;
use crate::float::F64;
use crate::linalg::norm_of;
use crate::model::ModelView;
use crate::trustregion::least_curvature;
use crate::trustregion::trial_step;
use crate::util::moderated;
use crate::vector::plus;

verus! {

/// A trust-region step that is longer than half the resolution and promises to reduce the model is
/// evaluated: the next point at which the objective is asked is the one that the step leads to from
/// the best point.
pub proof fn lemma_promising_step(t: Task, s: Run, o: Oracle)
    requires
        ({
            let d = trial_step(subproblem(s.m), s.delta);
            &&& !(min_of(s.delta, norm_of(d)) <= half() * s.rho)
            &&& -increment(s.m, d) > reduction_floor() * (s.rho * s.rho)
        }),
    ensures
        ({
            let d = trial_step(subproblem(s.m), s.delta);
            let r = iterated(t, s, o);
            let k = s.log.len() as int;
            &&& goes_on(s.log, r.log)
            &&& r.log.len() > k
            &&& r.log[k].x == moderated(point_at(t, s.m, plus(s.m.xopt(), d)))
        }),
{
    reveal(iterated);
    reveal(trial);
    reveal(stepped);
    reveal(tried);
    reveal(judged);
    reveal(carried_over);
    reveal(trial_placed);
    let k = s.log.len() as int;
    let s1 = stepped(s);
    let x = point_at(t, s1.m, plus(s1.m.xopt(), s1.d));
    let s2 = Run { rescued: false, ..s1.evaluated(x, o) };
    let qred = -increment(s1.m, s1.d);
    let s3 = judged(t, s2, qred);
    lemma_rescued_log(t, s3, o);
    let r1 = trial(t, s, o);
    assert(goes_on(s2.log, r1.log)) by {
        assert(s3.log == s2.log);
    }
    lemma_improved_log(t, r1, o);
    lemma_settled_log(t, r1, step_fails(stepped(s)), o);
    let r = iterated(t, s, o);
    assert(goes_on(r1.log, r.log));
    lemma_goes_on(s2.log, r1.log, r.log);
    assert(goes_on(s.log, s2.log));
    lemma_goes_on(s.log, s2.log, r.log);
    assert(s2.log[k] == r.log[k]);
}

/// A tenth of a positive number is below it.
proof fn lemma_tenth_below(a: F64)
    requires
        a.finite(),
        zero() < a,
    ensures
        tenth() * a < a,
        !(tenth() * a).nan(),
{
    reveal(below);
    reveal(product_of);
    lemma_fields(0);
    lemma_fields(a.mag());
    lemma_pow2_pos(1074);
    let u = unity();
    let m = a.mag();
    let f = units(tenth().mag());
    assert(4 * f <= u) by {
        vstd::arithmetic::power2::lemma2_to64();
        vstd::arithmetic::power2::lemma2_to64_rest();
        vstd::arithmetic::power2::lemma_pow2_adds(56, 1018);
        assert(sig(tenth().mag()) == 0x19_9999_9999_999a && expo(tenth().mag()) == 1018);
        lemma_pow2_pos(1018);
        let p = pow2(1018);
        assert(4 * (0x19_9999_9999_999a * p) <= pow2(56) * p) by (nonlinear_arith)
            requires
                pow2(56) == 0x100_0000_0000_0000,
                p > 0,
        ;
    }
    let n = f * units(m);
    let k = (m - 1) as nat;
    if m == 1 {
        assert(sig(1) == 1 && expo(1) == 0);
        vstd::arithmetic::power2::lemma2_to64();
        assert(units(1) == 1) by (nonlinear_arith)
            requires
                units(1) == 1 * pow2(0),
                pow2(0) == 1,
        ;
        assert(2 * n < u) by (nonlinear_arith)
            requires
                n == f * units(1),
                units(1) == 1,
                4 * f <= u,
                u > 0,
        ;
        lemma_round_zero_below(n, u);
    } else {
        lemma_predecessor(m);
        assert(n <= units(k) * u) by (nonlinear_arith)
            requires
                n == f * units(m),
                4 * f <= u,
                units(m) <= 2 * units(k),
        ;
        lemma_round_beside(n, u, k);
    }
}

/// No iteration is idle: it ends the run, asks the objective, rescues the set, reduces the
/// resolution or shrinks the radius.
pub proof fn lemma_no_idle_iteration(t: Task, s: Run, o: Oracle)
    requires
        s.delta.finite(),
        s.rho.finite(),
        zero() < s.rho,
        s.rho <= s.delta,
        zero() < t.set.rhoend,
        t.set.rhoend <= s.rho,
    ensures
        ({
            let r = iterated(t, s, o);
            ||| r.ended
            ||| r.log.len() > s.log.len()
            ||| r.rescued && !s.rescued
            ||| r.rho < s.rho
            ||| r.delta < s.delta
        }),
{
    reveal(iterated);
    lemma_trial_log(t, s, o);
    let a = stepped(s);
    let s1 = trial(t, s, o);
    let failed = step_fails(a);
    lemma_improved_log(t, s1, o);
    lemma_settled_log(t, s1, failed, o);
    if a.shortd || failed {
        assert(s1 == shortened(t, a, least_curvature(
            subproblem(s.m),
            s.delta,
        ))) by {
            reveal(trial);
        }
        if !s1.ended {
            lemma_quiet(t, s, s1, failed, o);
        }
    }
}

/// An iteration in which the trial step was not evaluated.
proof fn lemma_quiet(t: Task, s: Run, s1: Run, failed: bool, o: Oracle)
    requires
        s.delta.finite(),
        s.rho.finite(),
        zero() < s.rho,
        s.rho <= s.delta,
        zero() < t.set.rhoend,
        t.set.rhoend <= s.rho,
        failed == step_fails(stepped(s)),
        stepped(s).shortd || failed,
        s1 == shortened(
            t,
            stepped(s),
            least_curvature(subproblem(s.m), s.delta),
        ),
        !s1.ended,
    ensures
        ({
            let r = settled_down(t, s1, failed, o);
            ||| r.ended
            ||| r.log.len() > s.log.len()
            ||| r.rescued && !s.rescued
            ||| r.rho < s.rho
            ||| r.delta < s.delta
        }),
{
    reveal(settled_down);
    reveal(shortened);
    reveal(stepped);
    reveal(sharpened);
    reveal(rebased);
    lemma_improved_log(t, s1, o);
    if wants_geometry(t, s1, failed) {
        reveal(improved);
        let s2 = improved(t, s1, o);
        if !s2.ended && s2.log.len() == s1.log.len() {
            lemma_rescued_log(t, Run { d: improving_step(s1), ..s1 }, o);
        }
    } else {
        assert(geometry_adequate(s1));
        assert(zero() < s.delta) by {
            reveal(at_most);
            reveal(below);
        }
        lemma_tenth_below(s.delta);
        assert(s1.delta < s.delta || (s1.delta == s.rho && s.delta.key() == s.rho.key())) by {
            reveal(at_most);
            reveal(below);
        }
        lemma_resolution_falls(s.rho, t.set.rhoend);
        assert(s.rho == t.set.rhoend ==> s.rho <= t.set.rhoend) by {
            reveal(at_most);
            reveal(below);
        }
        if !(s1.delta < s.delta) {
            assert(wants_reduction(s1, failed)) by {
                reveal(at_most);
                reveal(below);
                reveal(max_of);
                reveal(min_of);
            }
        }
    }
}

/// A point that is taken into the set replaces one point and its value, and leaves the others.  It
/// lies the step away from the best point, as far as the bounds allow, and is the best point itself
/// where it improves.
pub proof fn lemma_point_taken_in(
    m: ModelView,
    k: usize,
    d: Seq<F64>,
    f: F64,
    moderr: F64,
    ximproved: bool,
    j: int,
    i: int,
)
    requires
        k < m.xpt.len(),
        m.fval.len() == m.xpt.len(),
        0 <= j < m.xpt.len(),
        0 <= i < d.len(),
        m.sl[i] <= m.su[i],
    ensures
        ({
            let r = point_replaced(m, k, d, f, moderr, ximproved);
            let v = m.xopt()[i] + d[i];
            &&& r.fval.len() == m.fval.len()
            &&& r.xpt.len() == m.xpt.len()
            &&& r.fval[k as int] == f
            &&& j != k ==> r.fval[j] == m.fval[j] && r.xpt[j] == m.xpt[j]
            &&& r.kopt == (if ximproved {
                k
            } else {
                m.kopt
            })
            &&& r.xbase == m.xbase
            &&& v.within(m.sl[i], m.su[i]) ==> r.xpt[k as int][i].key() == v.key()
            &&& r.xpt[k as int][i].within(m.sl[i], m.su[i])
        }),
{
    reveal(point_replaced);
    reveal(max_of);
    reveal(min_of);
    reveal(at_most);
    reveal(below);
}

} // verus!
