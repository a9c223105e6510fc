//! What the parts of the trust-region step do.
use vstd::prelude::*;

use crate::consts::zero;
use crate::float::arith::lemma_fields;
use crate::float::arith::sum_of;
use crate::float::near::lemma_negation_value;
use crate::float::near::lemma_sum_beside;
use crate::float::order::at_most;
use crate::float::order::below;
use crate::float::order::max_of;
use crate::float::order::min_of;
use crate::float::F64;
use crate::powalg::hessian_mul;
use crate::trustregion::bound_steps;
use crate::trustregion::boundary_step;
use crate::trustregion::cg_direction;
use crate::trustregion::cg_step;
use crate::trustregion::fixed_at_start;
use crate::trustregion::free_dot;
use crate::trustregion::settled;
use crate::trustregion::stopped_variable;
use crate::trustregion::Cg;
use crate::trustregion::FREE;
use crate::trustregion::Subproblem;
use crate::vector::dot;
use crate::vector::lemma_first_in_range;

verus! {

/// A variable is fixed at the start exactly where it is on a bound and the model does not fall
/// towards the inside; a fixed variable stays exactly on its bound in the final point.
pub proof fn lemma_fixed_where(p: Subproblem, d: Seq<F64>, i: int)
    requires
        0 <= i < p.gopt.len(),
        p.xopt.len() == p.gopt.len(),
        !p.gopt[i].nan(),
        p.sl[i] < p.su[i],
        p.xopt[i].within(p.sl[i], p.su[i]),
    ensures
        ({
            let x = fixed_at_start(p);
            let q = settled(p, d, x)[i];
            &&& p.sl[i] < p.xopt[i] && p.xopt[i] < p.su[i] ==> x[i] == FREE
            &&& p.xopt[i] == p.sl[i] ==> (x[i] == FREE <==> p.gopt[i] < zero())
            &&& p.xopt[i] == p.su[i] ==> (x[i] == FREE <==> p.gopt[i] > zero())
            &&& x[i] != FREE && p.xopt[i] == p.sl[i] ==> q == p.sl[i]
            &&& x[i] != FREE && p.xopt[i] == p.su[i] ==> q == p.su[i]
            &&& x[i] == FREE && (p.xopt[i] + d[i]).within(p.sl[i], p.su[i]) ==> q.key() == (
            p.xopt[i] + d[i]).key()
        }),
{
    reveal(at_most);
    reveal(below);
    reveal(max_of);
    reveal(min_of);
}

/// The first search direction, and the first one after a variable is fixed, is that of steepest
/// descent among the free variables; a fixed variable never moves.
pub proof fn lemma_direction_descends(
    s: Seq<F64>,
    gnew: Seq<F64>,
    xbdi: Seq<i32>,
    beta: F64,
    restart: bool,
    i: int,
)
    requires
        0 <= i < s.len(),
        gnew[i].finite(),
    ensures
        ({
            let v = cg_direction(s, gnew, xbdi, beta, restart)[i];
            &&& xbdi[i] != FREE ==> v.zero()
            &&& xbdi[i] == FREE && restart ==> v.finite() && v.value() == -gnew[i].value()
        }),
{
    lemma_negation_value(gnew[i]);
}

/// The bounds stop a step along `s` where it would cross one: the step length that is left is not
/// above any of the lengths at which a variable reaches its bound.
pub proof fn lemma_stopped_first(p: Subproblem, d: Seq<F64>, s: Seq<F64>, full: F64, i: int)
    requires
        0 <= i < d.len(),
        !full.nan(),
    ensures
        ({
            let b = bound_steps(p, d, s, full);
            let crosses = (s[i] < zero() && p.xopt[i] + d[i] + full * s[i] < p.sl[i]) || (s[i]
                > zero() && p.xopt[i] + d[i] + full * s[i] > p.su[i]);
            &&& !crosses ==> b[i] == full
            &&& match stopped_variable(b, full) {
                Some(k) => 0 <= k < d.len() && b[k] < full && !(b[i] < b[k]),
                None => !(b[i] < full),
            }
        }),
{
    let b = bound_steps(p, d, s, full);
    reveal(at_most);
    reveal(below);
    assert forall|j: int| 0 <= j < b.len() implies !(#[trigger] b[j]).nan() by {}
    lemma_first_in_range(b, b.len());
    lemma_first_min_smallest(b, b.len(), i);
    if let Some(k) = stopped_variable(b, full) {
        let j = choose|j: int| 0 <= j < b.len() && #[trigger] b[j] < full;
        lemma_first_min_smallest(b, b.len(), j);
    }
}

/// The scan for the smallest entry finds one that is not above any other.
proof fn lemma_first_min_smallest(x: Seq<F64>, k: nat, j: int)
    requires
        k <= x.len(),
        0 <= j < k,
    ensures
        !(x[j] < x[crate::vector::first_min(x, k)]),
    decreases k,
{
    reveal(below);
    lemma_first_in_range(x, k);
    if k > 1 {
        lemma_first_in_range(x, (k - 1) as nat);
        if j < k - 1 {
            lemma_first_min_smallest(x, (k - 1) as nat, j);
        }
    }
}

/// The predicted reduction of the model never falls from one conjugate-gradient iteration to the
/// next.
pub proof fn lemma_gain_is_kept(p: Subproblem, c: Cg)
    requires
        c.qred.finite(),
        cg_step(p, c).qred.finite(),
    ensures
        c.qred <= cg_step(p, c).qred,
{
    reveal(at_most);
    reveal(below);
    reveal(max_of);
    lemma_fields(0);
    let r = cg_step(p, c).qred;
    assert(r == c.qred || exists|v: F64| r == #[trigger] (c.qred + v) && !v.nan() && v.key() >= 0);
    if r != c.qred {
        let v = choose|v: F64| r == #[trigger] (c.qred + v) && !v.nan() && v.key() >= 0;
        assert(v.finite()) by {
            reveal(sum_of);
        }
        crate::float::near::lemma_order_value(zero(), v);
        lemma_sum_beside(c.qred, v, c.qred);
    }
}

/// The step `t` along the search direction: positive, and no longer than to the boundary of the
/// trust region or, where the curvature is positive, to the least value of the model.
pub open spec fn goes_along(p: Subproblem, c: Cg, t: F64, d: Seq<F64>) -> bool {
    let s = cg_direction(c.s, c.gnew, c.xbdi, c.beta, c.itercg == 0);
    let resid = c.delsq - free_dot(c.d, c.d, c.xbdi);
    let shs = free_dot(s, hessian_mul(s, p.xpt, p.pq, p.hq), c.xbdi);
    &&& t > zero()
    &&& t <= boundary_step(dot(s, s), resid, free_dot(c.d, s, c.xbdi))
    &&& shs > zero() && !(c.gredsq / shs).nan() ==> t <= c.gredsq / shs
    &&& d == Seq::new(c.d.len(), |i: int| c.d[i] + t * s[i])
}

/// A conjugate-gradient iteration leaves the step or moves it along the search direction, not
/// beyond the boundary of the trust region nor beyond the least value of the model.
pub proof fn lemma_cg_goes_along(p: Subproblem, c: Cg)
    ensures
        cg_step(p, c).d == c.d || exists|t: F64| #[trigger] goes_along(p, c, t, cg_step(p, c).d),
{
    let s = cg_direction(c.s, c.gnew, c.xbdi, c.beta, c.itercg == 0);
    let resid = c.delsq - free_dot(c.d, c.d, c.xbdi);
    let r = cg_step(p, c);
    if r.d != c.d {
        let stepsq = dot(s, s);
        let ds = free_dot(c.d, s, c.xbdi);
        let bstep = boundary_step(stepsq, resid, ds);
        let hs = hessian_mul(s, p.xpt, p.pq, p.hq);
        let shs = free_dot(s, hs, c.xbdi);
        let full = if shs > zero() {
            min_of(bstep, c.gredsq / shs)
        } else {
            bstep
        };
        let b = bound_steps(p, c.d, s, full);
        let iact = stopped_variable(b, full);
        let t = match iact {
            Some(ia) => b[ia],
            None => full,
        };
        reveal(at_most);
        reveal(below);
        reveal(min_of);
        assert(full <= bstep);
        assert(t <= full) by {
            if iact is Some {
                let j = choose|j: int| 0 <= j < b.len() && #[trigger] b[j] < full;
                lemma_stopped_first(p, c.d, s, full, j);
            }
        }
        assert(t > zero());
        assert(r.d =~= Seq::new(c.d.len(), |i: int| c.d[i] + t * s[i]));
        assert(goes_along(p, c, t, r.d));
    }
}

} // verus!
