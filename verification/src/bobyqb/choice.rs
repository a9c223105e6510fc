//! What the choices of an iteration mean.
use vstd::prelude::*;

use crate::bobyqb::axis_bounds;
use crate::bobyqb::axis_curvatures;
use crate::bobyqb::course::farthest;
use crate::bobyqb::course::geometry_radius;
use crate::bobyqb::course::spread;
use crate::bobyqb::course::wants_geometry;
use crate::bobyqb::course::wants_reduction;
use crate::bobyqb::course::Run;
use crate::bobyqb::course::Task;
use crate::bobyqb::error_bound;
use crate::bobyqb::least_from;
use crate::consts::eighth;
use crate::consts::infinity;
use crate::consts::ten;
use crate::consts::zero;
use crate::float::arith::lemma_fields;
use crate::float::arith::magnitude_of;
use crate::float::order::at_most;
use crate::float::order::below;
use crate::float::order::max_of;
use crate::float::order::min_of;
use crate::float::F64;
use crate::geometry::lemma_first_max_largest;
use crate::model::ModelView;
use crate::powalg::hessian_mul;
use crate::rescue::least_positive;
use crate::trustregion::next_crvmin;
use crate::vector::magnitudes;
use crate::vector::max_from;
use crate::vector::plus;

verus! {

/// No point is farther from the best one than the point that a geometry step replaces.
pub proof fn lemma_farthest(m: ModelView, k: int)
    requires
        0 <= k < m.xpt.len(),
        forall|i: int| 0 <= i < m.xpt.len() ==> !(#[trigger] spread(m)[i]).nan(),
    ensures
        spread(m)[k] <= spread(m)[farthest(m)],
{
    lemma_first_max_largest(spread(m), m.xpt.len(), k);
}

/// The radius of a geometry step lies between the resolution and the trust-region radius.
pub proof fn lemma_geometry_radius(s: Run)
    requires
        s.rho.finite(),
        s.delta.finite(),
        s.rho <= s.delta,
    ensures
        geometry_radius(s).within(s.rho, s.delta),
{
    reveal(at_most);
    reveal(below);
    reveal(max_of);
    reveal(min_of);
}

/// The set is not given a better geometry in an iteration that reduces the resolution, and it is
/// given one after a failed step where a point is farther away than both the radius and ten times
/// the resolution.
pub proof fn lemma_one_remedy(t: Task, s: Run, failed: bool)
    ensures
        !(wants_geometry(t, s, failed) && wants_reduction(s, failed)),
        wants_reduction(s, failed) ==> s.delta.nan() || s.delta <= s.rho,
        failed && !s.shortd ==> forall|k: int|
            0 <= k < s.m.xpt.len() && #[trigger] spread(s.m)[k] > max_of(
                s.delta * s.delta,
                (ten() * s.rho) * (ten() * s.rho),
            ) ==> wants_geometry(t, s, failed),
{
    reveal(at_most);
    reveal(below);
    reveal(max_of);
}

/// The least of some numbers and a first one: none is below it, and it is one of them.
proof fn lemma_least_from(acc: F64, x: Seq<F64>, k: nat)
    requires
        k <= x.len(),
        !acc.nan(),
    ensures
        !least_from(acc, x, k).nan(),
        least_from(acc, x, k) <= acc,
        forall|i: int| 0 <= i < k && !(#[trigger] x[i]).nan() ==> least_from(acc, x, k) <= x[i],
        least_from(acc, x, k) == acc || exists|i: int|
            0 <= i < k && least_from(acc, x, k) == #[trigger] x[i],
    decreases k,
{
    reveal(at_most);
    reveal(below);
    if k > 0 {
        lemma_least_from(acc, x, (k - 1) as nat);
        if x[k - 1] < least_from(acc, x, (k - 1) as nat) {
            assert(least_from(acc, x, k) == x[k - 1]);
        }
    }
}

/// The bound on model errors is the least of those from the coordinate directions and, where the
/// least curvature is positive, of an eighth of that times the square of the resolution.
pub proof fn lemma_error_bound(
    crvmin: F64,
    d: Seq<F64>,
    gopt: Seq<F64>,
    hq: Seq<Seq<F64>>,
    rec: Seq<F64>,
    pq: Seq<F64>,
    rho: F64,
    sl: Seq<F64>,
    su: Seq<F64>,
    xopt: Seq<F64>,
    xpt: Seq<Seq<F64>>,
    i: int,
)
    requires
        0 <= i < xopt.len(),
    ensures
        ({
            let e = error_bound(crvmin, d, gopt, hq, rec, pq, rho, sl, su, xopt, xpt);
            let w = max_from(zero(), magnitudes(rec), rec.len());
            let x = plus(xopt, d);
            let g = plus(gopt, hessian_mul(d, xpt, pq, hq));
            let v = axis_bounds(w, g, axis_curvatures(hq, pq, xpt), rho, sl, su, x)[i];
            let q = eighth() * crvmin * (rho * rho);
            &&& !e.nan()
            &&& !v.nan() ==> e <= v
            &&& x[i] < su[i] && x[i] > sl[i] && !v.nan() ==> w <= v
            &&& crvmin > zero() && !q.nan() ==> e <= q
            &&& e == infinity() || (crvmin > zero() && e == q) || exists|k: int|
                0 <= k < xopt.len() && e == #[trigger] axis_bounds(
                    w,
                    g,
                    axis_curvatures(hq, pq, xpt),
                    rho,
                    sl,
                    su,
                    x,
                )[k]
            &&& forall|k: int|
                0 <= k < rec.len() && !rec[k].nan() ==> #[trigger] magnitude_of(rec[k]) <= w
        }),
{
    let w = max_from(zero(), magnitudes(rec), rec.len());
    let x = plus(xopt, d);
    let g = plus(gopt, hessian_mul(d, xpt, pq, hq));
    let bounds = axis_bounds(w, g, axis_curvatures(hq, pq, xpt), rho, sl, su, x);
    lemma_fields(0);
    lemma_least_from(infinity(), bounds, bounds.len());
    lemma_max_from_real(zero(), magnitudes(rec), rec.len());
    assert forall|k: int| 0 <= k < rec.len() && !rec[k].nan() implies #[trigger] magnitude_of(
        rec[k],
    ) <= w by {
        assert(magnitudes(rec)[k] == magnitude_of(rec[k]));
        assert(!magnitude_of(rec[k]).nan()) by {
            reveal(magnitude_of);
        }
        lemma_max_from_largest(zero(), magnitudes(rec), rec.len(), k);
    }
    reveal(at_most);
    reveal(below);
    reveal(max_of);
    reveal(min_of);
    assert(!bounds[i].nan() ==> least_from(infinity(), bounds, bounds.len()) <= bounds[i]);
}

/// A largest number is not NaN.
proof fn lemma_max_from_real(acc: F64, x: Seq<F64>, k: nat)
    requires
        !acc.nan(),
    ensures
        !max_from(acc, x, k).nan(),
    decreases k,
{
    reveal(max_of);
    reveal(below);
    if k > 0 {
        lemma_max_from_real(acc, x, (k - 1) as nat);
    }
}

/// No number is above the largest one.
proof fn lemma_max_from_largest(acc: F64, x: Seq<F64>, k: nat, i: int)
    requires
        !acc.nan(),
        0 <= i < k,
        !x[i].nan(),
    ensures
        x[i] <= max_from(acc, x, k),
    decreases k,
{
    lemma_max_from_real(acc, x, (k - 1) as nat);
    reveal(max_of);
    reveal(below);
    reveal(at_most);
    if i < k - 1 {
        lemma_max_from_largest(acc, x, (k - 1) as nat, i);
    }
}

/// The least positive score: there is one where a score is positive, and no positive score is
/// below it.
pub proof fn lemma_least_positive(score: Seq<F64>, k: nat)
    requires
        k <= score.len(),
    ensures
        match least_positive(score, k) {
            Some(b) => 0 <= b < k && score[b] > zero() && forall|i: int|
                0 <= i < k && #[trigger] score[i] > zero() ==> score[b] <= score[i],
            None => forall|i: int| 0 <= i < k ==> !(#[trigger] score[i] > zero()),
        },
    decreases k,
{
    reveal(at_most);
    reveal(below);
    if k > 0 {
        lemma_least_positive(score, (k - 1) as nat);
    }
}

/// The least curvature follows the positive Rayleigh quotients of free steps, and nothing else.
pub proof fn lemma_curvature_follows(crvmin: F64, rq: F64, free: bool)
    requires
        !crvmin.nan(),
    ensures
        ({
            let r = next_crvmin(crvmin, rq, free);
            &&& free && rq > zero() ==> r <= rq
            &&& !(free && rq > zero()) ==> r == crvmin
            &&& r == crvmin || r == rq
            &&& free && rq > zero() && crvmin > zero() ==> r <= crvmin && r > zero()
        }),
{
    lemma_fields(0);
    reveal(at_most);
    reveal(below);
    reveal(min_of);
}

} // verus!
