//! The geometry of the interpolation set: the choice of the point to drop after a trust-region
//! step, and steps that improve the geometry.
use vstd::arithmetic::power2::lemma2_to64;
use vstd::arithmetic::power2::lemma_pow2_pos;
use vstd::arithmetic::power2::pow2;
use vstd::prelude::*;

use crate::consts::half;
use crate::consts::minus_one;
use crate::consts::near_floor;
use crate::consts::one;
use crate::consts::two;
use crate::consts::zero;
use crate::float::arith::lemma_fields;
use crate::float::arith::lemma_round_zero;
use crate::float::arith::lemma_zero_stays;
use crate::float::arith::magnitude_of;
use crate::float::arith::negation_of;
use crate::float::arith::product_of;
use crate::float::arith::quotient_of;
use crate::float::arith::root_of;
use crate::float::arith::sum_of;
use crate::float::arith::with_sign_of;
use crate::float::convert::unity;
use crate::float::expo;
use crate::float::near::lemma_negation_value;
use crate::float::near::lemma_order_value;
use crate::float::near::lemma_round_beside;
use crate::float::near::lemma_units_monotone;
use crate::float::order::at_most;
use crate::float::order::below;
use crate::float::order::lemma_clamp;
use crate::float::order::lemma_order_transitive;
use crate::float::order::max_of;
use crate::float::order::min_of;
use crate::float::order::same;
use crate::float::sig;
use crate::float::units;
use crate::float::F64;
use crate::linalg::inprod;
use crate::linalg::matprod12_into;
use crate::linalg::matprod21_into;
use crate::linalg::matvec;
use crate::linalg::norm;
use crate::linalg::norm_of;
use crate::linalg::turning::lemma_one;
use crate::linalg::vecmat;
use crate::mat::row;
use crate::mat::Mat;
use crate::powalg::calden_into;
use crate::powalg::counters::bumped;
use crate::powalg::counters::KernelCount;
use crate::powalg::denominators;
use crate::powalg::implicit_mul;
use crate::powalg::implicit_mul_into;
use crate::powalg::set_shaped;
use crate::powalg::CalWs;
use crate::util::first_real_max;
use crate::util::in_box;
use crate::util::ordered_bounds;
use crate::vector::abs_sum;
use crate::vector::all_finite;
use crate::vector::any_above;
use crate::vector::any_below;
use crate::vector::argmax;
use crate::vector::copy;
use crate::vector::difference_into;
use crate::vector::dot;
use crate::vector::dot_from;
use crate::vector::first_max;
use crate::vector::has_above;
use crate::vector::has_below;
use crate::vector::lemma_first_in_range;
use crate::vector::magnitudes;
use crate::vector::minus;
use crate::vector::partial_sum;
use crate::vector::plus;
use crate::vector::products;
use crate::vector::same_point;
use crate::vector::scale;
use crate::vector::scaled;
use crate::vector::sum_abs;
use crate::vector::sum_into;
use crate::vector::zeros;

pub mod length;
pub mod measure;

verus! {

/// The squared distance of two points.
pub open spec fn distance_sq(x: Seq<F64>, c: Seq<F64>) -> F64 {
    dot(minus(x, c), minus(x, c))
}

/// The squared distances of the points from `c`.
pub open spec fn distances_sq(xpt: Seq<Seq<F64>>, c: Seq<F64>) -> Seq<F64> {
    Seq::new(xpt.len(), |k: int| distance_sq(xpt[k], c))
}

/// The weight of a point at the squared distance `v`: the fourth power of its square in units
/// of `rho`, and at least one.
pub open spec fn drop_weight(v: F64, rho: F64) -> F64 {
    let m = max_of(v / (rho * rho), one());
    (m * m) * (m * m)
}

/// The point that the new one is compared with: the new point where it is an improvement, and
/// the best point otherwise.
pub open spec fn drop_center(
    kopt: int,
    ximproved: bool,
    d: Seq<F64>,
    xpt: Seq<Seq<F64>>,
) -> Seq<F64> {
    if ximproved {
        plus(xpt[kopt], d)
    } else {
        xpt[kopt]
    }
}

/// The scores by which a point is dropped: the denominators, weighted by the distance from
/// `center`; points that may not be dropped have the score minus one.
pub open spec fn drop_scores(
    kopt: int,
    ximproved: bool,
    distsq: Seq<F64>,
    den: Seq<F64>,
    rho: F64,
) -> Seq<F64> {
    Seq::new(
        distsq.len(),
        |k: int|
            {
                let v = drop_weight(distsq[k], rho) * den[k];
                if (!ximproved && k == kopt) || v.nan() {
                    minus_one()
                } else {
                    v
                }
            },
    )
}

/// The point to drop, from the distances and the scores.
pub open spec fn dropped(ximproved: bool, distsq: Seq<F64>, score: Seq<F64>) -> Option<int> {
    if any_above(score, one()) || (ximproved && any_above(score, zero())) {
        Some(first_max(score, score.len()))
    } else if ximproved {
        Some(first_max(distsq, distsq.len()))
    } else {
        None
    }
}

/// The point to drop after a trust-region step with the denominators `den`.
pub open spec fn point_to_drop(
    kopt: int,
    ximproved: bool,
    d: Seq<F64>,
    rho: F64,
    xpt: Seq<Seq<F64>>,
    den: Seq<F64>,
) -> Option<int> {
    let distsq = distances_sq(xpt, drop_center(kopt, ximproved, d, xpt));
    dropped(ximproved, distsq, drop_scores(kopt, ximproved, distsq, den, rho))
}

/// The scan for the largest entry finds one above `v`, if there is one and none is NaN.
pub proof fn lemma_first_max_above(x: Seq<F64>, k: nat, v: F64, i: int)
    requires
        forall|j: int| 0 <= j < k ==> !(#[trigger] x[j]).nan(),
        0 <= i < k,
        x[i] > v,
    ensures
        x[first_max(x, k)] > v,
        0 <= first_max(x, k) < k,
    decreases k,
{
    lemma_first_in_range(x, k);
    reveal(below);
    if k > 1 {
        lemma_first_in_range(x, (k - 1) as nat);
        if i < k - 1 {
            lemma_first_max_above(x, (k - 1) as nat, v, i);
        }
    }
}

/// After an improvement some point is dropped; without one the best point never is.
pub proof fn lemma_drop_choice(
    kopt: int,
    ximproved: bool,
    d: Seq<F64>,
    rho: F64,
    xpt: Seq<Seq<F64>>,
    den: Seq<F64>,
)
    requires
        0 <= kopt < xpt.len(),
        den.len() == xpt.len(),
    ensures
        ximproved ==> point_to_drop(kopt, ximproved, d, rho, xpt, den) is Some,
        !ximproved ==> point_to_drop(kopt, ximproved, d, rho, xpt, den) != Some(kopt),
        point_to_drop(kopt, ximproved, d, rho, xpt, den) matches Some(k) ==> 0 <= k < xpt.len(),
{
    let distsq = distances_sq(xpt, drop_center(kopt, ximproved, d, xpt));
    let score = drop_scores(kopt, ximproved, distsq, den, rho);
    lemma_first_in_range(score, score.len());
    lemma_first_in_range(distsq, distsq.len());
    assert(!minus_one().nan());
    assert forall|j: int| 0 <= j < score.len() implies !(#[trigger] score[j]).nan() by {}
    if !ximproved && any_above(score, one()) {
        let i = choose|i: int| 0 <= i < score.len() && #[trigger] score[i] > one();
        lemma_first_max_above(score, score.len(), one(), i);
        reveal(below);
        assert(!(minus_one() > one()));
    }
}

/// What a geometry step is computed from.
pub struct Improvement {
    pub knew: int,
    pub kopt: int,
    pub bmat: Seq<Seq<F64>>,
    pub delbar: F64,
    pub sl: Seq<F64>,
    pub su: Seq<F64>,
    pub xpt: Seq<Seq<F64>>,
    pub zmat: Seq<Seq<F64>>,
}

impl Improvement {
    /// The best point.
    pub open spec fn xopt(self) -> Seq<F64> {
        self.xpt[self.kopt]
    }

    /// The coefficients of the implicit Hessian of the Lagrange function of `knew`.
    pub open spec fn pqlag(self) -> Seq<F64> {
        matvec(self.zmat, row(self.zmat, self.knew), self.xpt.len())
    }

    /// The gradient of the Lagrange function of `knew` at the best point.
    pub open spec fn glag(self) -> Seq<F64> {
        plus(self.bmat[self.knew], implicit_mul(self.xopt(), self.xpt, self.pqlag()))
    }

    /// The slopes of the Lagrange function along the lines to the points; zero at the best
    /// point and where the slope is NaN.
    pub open spec fn slopes(self) -> Seq<F64> {
        Seq::new(
            self.xpt.len(),
            |k: int|
                {
                    let v = dot(self.glag(), self.xpt[k]) - dot(self.glag(), self.xopt());
                    if k == self.kopt || v.nan() {
                        zero()
                    } else {
                        v
                    }
                },
        )
    }

    /// The line to point `k` is not searched.
    pub open spec fn skipped(self, k: int) -> bool {
        k == self.kopt || (dot(self.glag(), self.xpt[k]) - dot(self.glag(), self.xopt())).nan()
    }

    /// The squared distances from the best point.
    pub open spec fn distsq(self) -> Seq<F64> {
        distances_sq(self.xpt, self.xopt())
    }
}

/// The bound that a step on a line runs into.
#[derive(Debug, Clone, Copy, PartialEq, Eq, Structural)]
pub enum Hit {
    /// No bound.
    Nothing,
    /// The lower bound of a variable.
    Lower(usize),
    /// The upper bound of a variable.
    Upper(usize),
}

/// The steps that are tried on a line, in units of the distance of the point that it leads to,
/// and the bounds that the first two run into.
#[derive(Debug, Clone, Copy, PartialEq, Eq, Structural)]
pub struct Line {
    /// The least step.
    pub slbd: F64,
    /// The largest step.
    pub subd: F64,
    /// The step to the critical point between them.
    pub stpm: F64,
    /// The bound at the least step.
    pub at_least: Hit,
    /// The bound at the largest step.
    pub at_most: Hit,
}

/// The line that is not searched.
pub open spec fn no_line() -> Line {
    Line {
        slbd: zero(),
        subd: zero(),
        stpm: zero(),
        at_least: Hit::Nothing,
        at_most: Hit::Nothing,
    }
}

/// The step at which a variable that changes by `xdiff` reaches its lower bound at the distance
/// `gap`, within steps of size `subd`.
pub open spec fn lower_fraction(gap: F64, xdiff: F64, subd: F64) -> F64 {
    if gap > (-magnitude_of(xdiff)) * subd {
        gap / xdiff
    } else {
        with_sign_of(subd, -xdiff)
    }
}

/// The step at which a variable that changes by `xdiff` reaches its upper bound at the distance
/// `gap`, within steps of size `subd`.
pub open spec fn upper_fraction(gap: F64, xdiff: F64, subd: F64) -> F64 {
    if gap < magnitude_of(xdiff) * subd {
        gap / xdiff
    } else {
        with_sign_of(subd, xdiff)
    }
}

/// The least steps that the bounds of the variables leave on the line to `x`.
pub open spec fn least_steps(
    xopt: Seq<F64>,
    x: Seq<F64>,
    sl: Seq<F64>,
    su: Seq<F64>,
    subd: F64,
) -> Seq<F64> {
    Seq::new(
        x.len(),
        |i: int|
            {
                let xdiff = x[i] - xopt[i];
                if xdiff > zero() {
                    lower_fraction(sl[i] - xopt[i], xdiff, subd)
                } else if xdiff < zero() {
                    upper_fraction(su[i] - xopt[i], xdiff, subd)
                } else {
                    -subd
                }
            },
    )
}

/// The largest steps that the bounds of the variables leave on the line to `x`.
pub open spec fn largest_steps(
    xopt: Seq<F64>,
    x: Seq<F64>,
    sl: Seq<F64>,
    su: Seq<F64>,
    subd: F64,
) -> Seq<F64> {
    Seq::new(
        x.len(),
        |i: int|
            {
                let xdiff = x[i] - xopt[i];
                if xdiff > zero() {
                    upper_fraction(su[i] - xopt[i], xdiff, subd)
                } else if xdiff < zero() {
                    lower_fraction(sl[i] - xopt[i], xdiff, subd)
                } else {
                    subd
                }
            },
    )
}

/// The first position of the smallest entry that is not NaN among the first `k`.
pub open spec fn first_real_min(f: Seq<F64>, k: nat) -> Option<int>
    decreases k,
{
    if k == 0 {
        None
    } else {
        match first_real_min(f, (k - 1) as nat) {
            None => if f[k - 1].nan() {
                None
            } else {
                Some(k - 1)
            },
            Some(b) => if !f[k - 1].nan() && f[k - 1] < f[b] {
                Some(k - 1)
            } else {
                Some(b)
            },
        }
    }
}

/// The least step on the line to `x` and the bound that it runs into, where the trust region
/// allows steps of size `subd`.
pub open spec fn least_step(
    xopt: Seq<F64>,
    x: Seq<F64>,
    sl: Seq<F64>,
    su: Seq<F64>,
    subd: F64,
) -> (F64, Hit) {
    let t = least_steps(xopt, x, sl, su, subd);
    match first_real_max(t, t.len()) {
        Some(i) => if any_above(t, -subd) {
            (
                t[i],
                if (x[i] - xopt[i]).sign() {
                    Hit::Upper(i as usize)
                } else {
                    Hit::Lower(i as usize)
                },
            )
        } else {
            (-subd, Hit::Nothing)
        },
        None => (-subd, Hit::Nothing),
    }
}

/// The largest step on the line to `x` and the bound that it runs into, where the trust region
/// allows steps of size `subd`.
pub open spec fn largest_step(
    xopt: Seq<F64>,
    x: Seq<F64>,
    sl: Seq<F64>,
    su: Seq<F64>,
    subd: F64,
) -> (F64, Hit) {
    let t = largest_steps(xopt, x, sl, su, subd);
    match first_real_min(t, t.len()) {
        Some(i) => if any_below(t, subd) {
            (
                max_of(min_of(one(), subd), t[i]),
                if (x[i] - xopt[i]).sign() {
                    Hit::Lower(i as usize)
                } else {
                    Hit::Upper(i as usize)
                },
            )
        } else {
            (subd, Hit::Nothing)
        },
        None => (subd, Hit::Nothing),
    }
}

/// The line to `x`: `distsq` is its squared distance, `slope` the slope of the Lagrange
/// function, of which `own` tells that it is the one of that point.
pub open spec fn line_of(
    xopt: Seq<F64>,
    x: Seq<F64>,
    sl: Seq<F64>,
    su: Seq<F64>,
    delbar: F64,
    distsq: F64,
    slope: F64,
    own: bool,
) -> Line {
    let reach = delbar / root_of(distsq);
    let lo = least_step(xopt, x, sl, su, reach);
    let hi = largest_step(xopt, x, sl, su, reach);
    let critical = if own {
        if magnitude_of(one() - slope) > zero() {
            (-half()) * slope / (one() - slope)
        } else {
            lo.0
        }
    } else {
        half()
    };
    Line {
        slbd: lo.0,
        subd: hi.0,
        stpm: max_of(lo.0, min_of(hi.0, critical)),
        at_least: lo.1,
        at_most: hi.1,
    }
}

/// The lines to the points.
pub open spec fn lines_of(g: Improvement) -> Seq<Line> {
    Seq::new(
        g.xpt.len(),
        |k: int|
            if g.skipped(k) {
                no_line()
            } else {
                line_of(
                    g.xopt(),
                    g.xpt[k],
                    g.sl,
                    g.su,
                    g.delbar,
                    g.distsq()[k],
                    g.slopes()[k],
                    k == g.knew,
                )
            },
    )
}

/// Zero in place of NaN.
pub open spec fn real_or_zero(v: F64) -> F64 {
    if v.nan() {
        zero()
    } else {
        v
    }
}

/// The predicted size of the denominator after the step `t` on a line.
pub open spec fn prediction(t: F64, slope: F64, distsq: F64, alpha: F64, own: bool) -> F64 {
    let vlag = real_or_zero(
        if own {
            t * (t * (one() - slope) + slope)
        } else {
            t * (one() - t) * slope
        },
    );
    let b = t * (one() - t) * distsq;
    let betabd = half() * b * b;
    let v2 = vlag * vlag;
    real_or_zero(v2 * (v2 + alpha * betabd))
}

/// Step number `i` of a line.
pub open spec fn line_step(l: Line, i: int) -> F64 {
    if i == 0 {
        l.slbd
    } else if i == 1 {
        l.subd
    } else {
        l.stpm
    }
}

/// The bound that step number `i` of a line runs into.
pub open spec fn line_hit(l: Line, i: int) -> Hit {
    if i == 0 {
        l.at_least
    } else if i == 1 {
        l.at_most
    } else {
        Hit::Nothing
    }
}

/// The predictions for step number `i` of the lines.
pub open spec fn predictions(g: Improvement, i: int) -> Seq<F64> {
    Seq::new(
        g.xpt.len(),
        |k: int|
            prediction(
                line_step(lines_of(g)[k], i),
                g.slopes()[k],
                g.distsq()[k],
                g.pqlag()[g.knew],
                k == g.knew,
            ),
    )
}

/// The line with the largest prediction for step number `i`.
pub open spec fn best_line(g: Improvement, i: int) -> int {
    first_max(predictions(g, i), g.xpt.len())
}

/// The largest prediction for step number `i`.
pub open spec fn best_prediction(g: Improvement, i: int) -> F64 {
    predictions(g, i)[best_line(g, i)]
}

/// The number of the step with the largest prediction.
pub open spec fn best_step_number(g: Improvement) -> int {
    first_max(
        seq![best_prediction(g, 0), best_prediction(g, 1), best_prediction(g, 2)],
        3,
    )
}

/// The coordinate `v` between its bounds, or on the bound that a step runs into.
pub open spec fn line_coordinate(hit: Hit, i: int, v: F64, sl: F64, su: F64) -> F64 {
    if hit == Hit::Lower(i as usize) {
        sl
    } else if hit == Hit::Upper(i as usize) {
        su
    } else {
        max_of(min_of(v, su), sl)
    }
}

/// The end of the best step on a line.
pub open spec fn line_point(g: Improvement) -> Seq<F64> {
    let isq = best_step_number(g);
    let ksq = best_line(g, isq);
    let t = line_step(lines_of(g)[ksq], isq);
    let hit = line_hit(lines_of(g)[ksq], isq);
    Seq::new(
        g.sl.len(),
        |i: int|
            line_coordinate(
                hit,
                i,
                g.xopt()[i] + t * (g.xpt[ksq][i] - g.xopt()[i]),
                g.sl[i],
                g.su[i],
            ),
    )
}

/// The products of the first `k` entries that the mask selects, added to `acc`.
pub open spec fn masked_sumsq_from(acc: F64, x: Seq<F64>, mask: Seq<bool>, k: nat) -> F64
    decreases k,
{
    if k == 0 {
        acc
    } else if mask[k - 1] {
        masked_sumsq_from(acc, x, mask, (k - 1) as nat) + x[k - 1] * x[k - 1]
    } else {
        masked_sumsq_from(acc, x, mask, (k - 1) as nat)
    }
}

/// The state while the constrained Cauchy step fixes variables at bounds.
pub struct Fixing {
    pub s: Seq<F64>,
    pub sfixsq: F64,
    pub grdstp: F64,
    pub ggfree: F64,
    pub ended: bool,
}

/// The variables that the gradient `glag` can move.
pub open spec fn movable(xopt: Seq<F64>, sl: Seq<F64>, su: Seq<F64>, glag: Seq<F64>) -> Seq<bool> {
    Seq::new(
        glag.len(),
        |i: int|
            min_of(xopt[i] - sl[i], glag[i]) > zero() || max_of(xopt[i] - su[i], glag[i]) < zero(),
    )
}

/// The step of which the entries of the selected variables are `big`.
pub open spec fn marked(mask: Seq<bool>, big: F64) -> Seq<F64> {
    Seq::new(
        mask.len(),
        |i: int|
            if mask[i] {
                big
            } else {
                zero()
            },
    )
}

/// The state before the first variables are fixed.
pub open spec fn fixing_start(g: Improvement, glag: Seq<F64>) -> Fixing {
    let mask = movable(g.xopt(), g.sl, g.su, glag);
    Fixing {
        s: marked(mask, g.delbar + g.delbar),
        sfixsq: zero(),
        grdstp: zero(),
        ggfree: masked_sumsq_from(zero(), glag, mask, glag.len()),
        ended: false,
    }
}

/// The variable `i` is fixed at its lower bound by the step of length `grdstp`.
pub open spec fn fixes_low(
    g: Improvement,
    glag: Seq<F64>,
    s: Seq<F64>,
    grdstp: F64,
    i: int,
) -> bool {
    s[i] >= g.delbar + g.delbar && g.xopt()[i] - grdstp * glag[i] <= g.sl[i]
}

/// The variable `i` is fixed at its upper bound by the step of length `grdstp`.
pub open spec fn fixes_high(
    g: Improvement,
    glag: Seq<F64>,
    s: Seq<F64>,
    grdstp: F64,
    i: int,
) -> bool {
    s[i] >= g.delbar + g.delbar && g.xopt()[i] - grdstp * glag[i] >= g.su[i]
}

/// The step with the variables that the step of length `grdstp` takes to bounds fixed there.
pub open spec fn fixed_step(g: Improvement, glag: Seq<F64>, s: Seq<F64>, grdstp: F64) -> Seq<F64> {
    Seq::new(
        s.len(),
        |i: int|
            if fixes_high(g, glag, s, grdstp, i) {
                g.su[i] - g.xopt()[i]
            } else if fixes_low(g, glag, s, grdstp, i) {
                g.sl[i] - g.xopt()[i]
            } else {
                s[i]
            },
    )
}

/// The variables that the step of length `grdstp` fixes.
pub open spec fn newly_fixed(
    g: Improvement,
    glag: Seq<F64>,
    s: Seq<F64>,
    grdstp: F64,
) -> Seq<bool> {
    Seq::new(
        s.len(),
        |i: int| fixes_low(g, glag, s, grdstp, i) || fixes_high(g, glag, s, grdstp, i),
    )
}

/// The variables that the step of length `grdstp` leaves free.
pub open spec fn still_free(g: Improvement, glag: Seq<F64>, s: Seq<F64>, grdstp: F64) -> Seq<bool> {
    Seq::new(
        s.len(),
        |i: int|
            s[i] >= g.delbar + g.delbar && !(fixes_low(g, glag, s, grdstp, i) || fixes_high(
                g,
                glag,
                s,
                grdstp,
                i,
            )),
    )
}

/// Fixes the variables that the present step takes to bounds.
pub open spec fn fixing_step(g: Improvement, glag: Seq<F64>, f: Fixing) -> Fixing {
    let resis = g.delbar * g.delbar - f.sfixsq;
    if resis <= zero() {
        Fixing { ended: true, ..f }
    } else {
        let grdstp = root_of(resis / f.ggfree);
        let s = fixed_step(g, glag, f.s, grdstp);
        let sfixsq = masked_sumsq_from(
            f.sfixsq,
            s,
            newly_fixed(g, glag, f.s, grdstp),
            s.len(),
        );
        let ggfree = masked_sumsq_from(
            zero(),
            glag,
            still_free(g, glag, f.s, grdstp),
            s.len(),
        );
        Fixing { s, sfixsq, grdstp, ggfree, ended: !(sfixsq > f.sfixsq && ggfree > zero()) }
    }
}

/// The state after at most `k` rounds of fixing.
pub open spec fn fixing_run(g: Improvement, glag: Seq<F64>, f: Fixing, k: nat) -> Fixing
    decreases k,
{
    if k == 0 || f.ended {
        f
    } else {
        fixing_run(g, glag, fixing_step(g, glag, f), (k - 1) as nat)
    }
}

/// The point of the Cauchy step.
pub open spec fn cauchy_point(g: Improvement, glag: Seq<F64>, f: Fixing) -> Seq<F64> {
    Seq::new(
        g.sl.len(),
        |i: int|
            if f.s[i] >= g.delbar + g.delbar {
                max_of(min_of(g.xopt()[i] - f.grdstp * glag[i], g.su[i]), g.sl[i])
            } else if magnitude_of(f.s[i]) <= zero() {
                g.xopt()[i]
            } else if glag[i] <= zero() {
                g.su[i]
            } else if glag[i] > zero() {
                g.sl[i]
            } else {
                zero()
            },
    )
}

/// The Cauchy step.
pub open spec fn cauchy_direction(g: Improvement, glag: Seq<F64>, f: Fixing) -> Seq<F64> {
    Seq::new(
        glag.len(),
        |i: int|
            if f.s[i] >= g.delbar + g.delbar {
                (-f.grdstp) * glag[i]
            } else {
                f.s[i]
            },
    )
}

/// The point `scaling` times the step `s` away from the best point, between the bounds.
pub open spec fn shortened(g: Improvement, s: Seq<F64>, scaling: F64) -> Seq<F64> {
    Seq::new(
        g.sl.len(),
        |i: int| max_of(min_of(g.xopt()[i] + scaling * s[i], g.su[i]), g.sl[i]),
    )
}

/// The best Cauchy point so far, and the squared value of the Lagrange function there.
pub struct Cauchy {
    pub x: Seq<F64>,
    pub vlagsq: F64,
}

/// The Cauchy step against the gradient `glag`, of the Lagrange function or of its negative.
pub open spec fn cauchy_of(g: Improvement, glag: Seq<F64>, uphill: bool, f: Fixing) -> Cauchy {
    let s = cauchy_direction(g, glag, f);
    let gs = dot(glag, s);
    let sxpt = vecmat(s, g.xpt);
    let c0 = dot(sxpt, products(g.pqlag(), sxpt));
    let curv = if uphill {
        -c0
    } else {
        c0
    };
    if curv > -gs && curv < (-(one() + root_of(two()))) * gs {
        let scaling = (-gs) / curv;
        let h = half() * gs * scaling;
        Cauchy { x: shortened(g, s, scaling), vlagsq: h * h }
    } else {
        let t = gs + half() * curv;
        Cauchy { x: cauchy_point(g, glag, f), vlagsq: t * t }
    }
}

/// The better of the best Cauchy point so far and the one against `glag`.
pub open spec fn cauchy_try(g: Improvement, glag: Seq<F64>, uphill: bool, best: Cauchy) -> Cauchy {
    let f0 = fixing_start(g, glag);
    if f0.ggfree <= zero() || f0.ggfree.nan() {
        best
    } else {
        let c = cauchy_of(g, glag, uphill, fixing_run(g, glag, f0, glag.len()));
        if c.vlagsq > best.vlagsq {
            c
        } else {
            best
        }
    }
}

/// The negative of a vector.
pub open spec fn negative(x: Seq<F64>) -> Seq<F64> {
    Seq::new(x.len(), |i: int| -x[i])
}

/// The best Cauchy point, down or up the Lagrange function.
pub open spec fn best_cauchy(g: Improvement) -> Cauchy {
    let down = cauchy_try(g, g.glag(), false, Cauchy { x: g.xopt(), vlagsq: zero() });
    cauchy_try(g, negative(g.glag()), true, down)
}

/// The step towards point `knew`, at most halfway and at most of length `delbar`.
pub open spec fn fallback_step(g: Improvement) -> Seq<F64> {
    let v = minus(g.xpt[g.knew], g.xopt());
    scaled(v, min_of(half(), g.delbar / norm_of(v)))
}

/// The step on a line.
pub open spec fn line_d(g: Improvement) -> Seq<F64> {
    minus(line_point(g), g.xopt())
}

/// The Cauchy step between the bounds.
pub open spec fn cauchy_d(g: Improvement) -> Seq<F64> {
    minus(best_cauchy(g).x, g.xopt())
}

/// The better of the line step and the Cauchy step.
pub open spec fn better_step(g: Improvement) -> Seq<F64> {
    let dl = denominators(g.kopt, g.bmat, line_d(g), g.xpt, g.zmat)[g.knew];
    let dc = denominators(g.kopt, g.bmat, cauchy_d(g), g.xpt, g.zmat)[g.knew];
    if dc > max_of(dl, zero()) || dl.nan() {
        cauchy_d(g)
    } else {
        line_d(g)
    }
}

/// The gradient of the Lagrange function is usable.
pub open spec fn usable(g: Improvement) -> bool {
    abs_sum(g.glag()).finite()
}

/// The step that improves the geometry.
pub open spec fn geometry_step(g: Improvement) -> Seq<F64> {
    if !usable(g) {
        fallback_step(g)
    } else if g.delbar > near_floor() {
        line_d(g)
    } else {
        let d = better_step(g);
        if abs_sum(d) <= zero() || !abs_sum(d).finite() {
            fallback_step(g)
        } else {
            d
        }
    }
}

/// A geometry step has as many entries as there are bounds.
pub proof fn lemma_geometry_len(g: Improvement)
    requires
        g.xopt().len() == g.sl.len(),
        g.xpt[g.knew].len() == g.sl.len(),
    ensures
        geometry_step(g).len() == g.sl.len(),
{
    let down = cauchy_try(g, g.glag(), false, Cauchy { x: g.xopt(), vlagsq: zero() });
    assert(down.x.len() == g.sl.len());
    assert(best_cauchy(g).x.len() == g.sl.len());
    assert(line_d(g).len() == g.sl.len());
    assert(fallback_step(g).len() == g.sl.len());
}

/// The number of kernel evaluations of a geometry step.
pub open spec fn geometry_kernels(g: Improvement) -> nat {
    if !usable(g) {
        0
    } else if g.delbar > near_floor() {
        1
    } else {
        2
    }
}

/// The count of kernel evaluations after a geometry step.
pub open spec fn geometry_count(g: Improvement, c: KernelCount) -> KernelCount {
    if !usable(g) {
        c
    } else if g.delbar > near_floor() {
        bumped(c)
    } else {
        bumped(bumped(c))
    }
}

/// The ends of the line step and of the Cauchy step lie between the bounds, if the best point
/// does.
pub proof fn lemma_geometry_in_box(g: Improvement)
    requires
        ordered_bounds(g.sl, g.su),
        in_box(g.xopt(), g.sl, g.su),
        g.bmat[g.knew].len() == g.sl.len(),
        forall|i: int| 0 <= i < g.sl.len() ==> !(#[trigger] g.glag()[i]).nan(),
    ensures
        in_box(line_point(g), g.sl, g.su),
        in_box(best_cauchy(g).x, g.sl, g.su),
{
    let x = line_point(g);
    let isq = best_step_number(g);
    let ksq = best_line(g, isq);
    let t = line_step(lines_of(g)[ksq], isq);
    assert forall|i: int| 0 <= i < x.len() implies (#[trigger] x[i]).within(g.sl[i], g.su[i]) by {
        assert(g.sl[i] <= g.su[i]);
        lemma_clamp(g.sl[i], g.su[i], g.xopt()[i] + t * (g.xpt[ksq][i] - g.xopt()[i]));
        reveal(at_most);
    }
    let down = cauchy_try(g, g.glag(), false, Cauchy { x: g.xopt(), vlagsq: zero() });
    lemma_cauchy_in_box(g, g.glag(), false, Cauchy { x: g.xopt(), vlagsq: zero() });
    assert forall|i: int| 0 <= i < g.sl.len() implies !(#[trigger] negative(g.glag())[i]).nan() by {
        assert(!g.glag()[i].nan());
        reveal(negation_of);
    }
    lemma_cauchy_in_box(g, negative(g.glag()), true, down);
}

proof fn lemma_cauchy_in_box(g: Improvement, glag: Seq<F64>, uphill: bool, best: Cauchy)
    requires
        ordered_bounds(g.sl, g.su),
        in_box(g.xopt(), g.sl, g.su),
        in_box(best.x, g.sl, g.su),
        glag.len() == g.sl.len(),
        forall|i: int| 0 <= i < g.sl.len() ==> !(#[trigger] glag[i]).nan(),
    ensures
        in_box(cauchy_try(g, glag, uphill, best).x, g.sl, g.su),
{
    let f = fixing_run(g, glag, fixing_start(g, glag), glag.len());
    let s = cauchy_direction(g, glag, f);
    let p = cauchy_point(g, glag, f);
    assert forall|i: int| 0 <= i < p.len() implies (#[trigger] p[i]).within(g.sl[i], g.su[i]) by {
        assert(g.sl[i] <= g.su[i]);
        assert(g.xopt()[i].within(g.sl[i], g.su[i]));
        assert(!glag[i].nan());
        lemma_clamp(g.sl[i], g.su[i], g.xopt()[i] - f.grdstp * glag[i]);
        reveal(at_most);
        reveal(below);
    }
    assert forall|scaling: F64| in_box(#[trigger] shortened(g, s, scaling), g.sl, g.su) by {
        let q = shortened(g, s, scaling);
        assert forall|i: int| 0 <= i < q.len() implies (#[trigger] q[i]).within(g.sl[i], g.su[i]) by {
            assert(g.sl[i] <= g.su[i]);
            lemma_clamp(g.sl[i], g.su[i], g.xopt()[i] + scaling * s[i]);
        }
    }
}

/// Scratch space of [`setdrop_tr`] and [`geostep`].
#[derive(Debug, Clone)]
pub struct GeostepWs {
    /// Squared distances.
    pub distsq: Vec<F64>,
    /// Denominators, of the line step in [`geostep`].
    pub den: Vec<F64>,
    /// Scores or predictions.
    pub score: Vec<F64>,
    /// A row of `zmat`.
    pub zrow: Vec<F64>,
    /// Coefficients of the implicit Hessian of the Lagrange function.
    pub pqlag: Vec<F64>,
    /// The point from which distances are taken.
    pub xopt: Vec<F64>,
    /// The gradient of the Lagrange function.
    pub glag: Vec<F64>,
    /// Slopes along the lines.
    pub slopes: Vec<F64>,
    /// The lines.
    pub lines: Vec<Line>,
    /// The steps that bounds leave on a line.
    pub steps: Vec<F64>,
    /// The best Cauchy point.
    pub xcauchy: Vec<F64>,
    /// The step of a Cauchy point.
    pub s: Vec<F64>,
    /// A Cauchy point.
    pub x: Vec<F64>,
    /// Products of the step with the points.
    pub sxpt: Vec<F64>,
    /// Products of those with the implicit coefficients.
    pub pqsxpt: Vec<F64>,
    /// Denominators of the Cauchy step.
    pub den_cauchy: Vec<F64>,
    /// Products with the interpolation points.
    pub dxpt: Vec<F64>,
    /// Scratch space of the kernel.
    pub cal: CalWs,
}

impl GeostepWs {
    /// The buffers have the lengths for `n` variables and `npt` points.
    pub open spec fn fits(&self, n: nat, npt: nat) -> bool {
        &&& self.distsq@.len() == npt
        &&& self.den@.len() == npt
        &&& self.score@.len() == npt
        &&& self.zrow@.len() + n + 1 == npt
        &&& self.pqlag@.len() == npt
        &&& self.xopt@.len() == n
        &&& self.glag@.len() == n
        &&& self.slopes@.len() == npt
        &&& self.lines@.len() == npt
        &&& self.steps@.len() == n
        &&& self.xcauchy@.len() == n
        &&& self.s@.len() == n
        &&& self.x@.len() == n
        &&& self.sxpt@.len() == npt
        &&& self.pqsxpt@.len() == npt
        &&& self.den_cauchy@.len() == npt
        &&& self.dxpt@.len() == npt
        &&& self.cal.fits(n, npt)
    }

    /// Scratch space for `n` variables and `npt` points.
    pub fn new(n: usize, npt: usize) -> (r: GeostepWs)
        requires
            npt >= n + 1,
            npt + n <= usize::MAX,
        ensures
            r.fits(n as nat, npt as nat),
            r.cal.count.calls == 0,
    {
        let mut lines: Vec<Line> = Vec::with_capacity(npt);
        for k in 0..npt
            invariant
                lines@.len() == k,
        {
            lines.push(unsearched());
        }
        GeostepWs {
            distsq: zeros(npt),
            den: zeros(npt),
            score: zeros(npt),
            zrow: zeros(npt - n - 1),
            pqlag: zeros(npt),
            xopt: zeros(n),
            glag: zeros(n),
            slopes: zeros(npt),
            lines,
            steps: zeros(n),
            xcauchy: zeros(n),
            s: zeros(n),
            x: zeros(n),
            sxpt: zeros(npt),
            pqsxpt: zeros(npt),
            den_cauchy: zeros(npt),
            dxpt: zeros(npt),
            cal: CalWs::new(n, npt),
        }
    }
}

/// The line that is not searched.
fn unsearched() -> (r: Line)
    ensures
        r == no_line(),
{
    Line {
        slbd: zero(),
        subd: zero(),
        stpm: zero(),
        at_least: Hit::Nothing,
        at_most: Hit::Nothing,
    }
}

/// The squared distance of two points.
pub fn squared_distance(x: &[F64], c: &[F64]) -> (r: F64)
    requires
        c@.len() == x@.len(),
    ensures
        r == distance_sq(x@, c@),
{
    let mut sq: F64 = zero();
    for i in 0..x.len()
        invariant
            c@.len() == x@.len(),
            sq == dot_from(zero(), minus(x@, c@), minus(x@, c@), i as nat),
    {
        let diff: F64 = x[i] - c[i];
        sq = sq + diff * diff;
    }
    sq
}

/// Writes the squared distances of the points from `c` into `z`.
pub fn squared_distances_into(xpt: &Mat, c: &[F64], z: &mut Vec<F64>)
    requires
        xpt.is(c@.len(), old(z)@.len()),
    ensures
        final(z)@ == distances_sq(xpt@, c@),
{
    let npt: usize = z.len();
    for k in 0..npt
        invariant
            z@.len() == npt,
            xpt.is(c@.len(), npt as nat),
            forall|j: int| 0 <= j < k ==> z@[j] == distance_sq(xpt@[j], c@),
    {
        assert(xpt@[k as int].len() == c@.len());
        z[k] = squared_distance(xpt.col(k), c);
    }
    assert(z@ =~= distances_sq(xpt@, c@));
}

/// Writes the scores by which a point is dropped into `score`.
fn drop_scores_into(
    kopt: usize,
    ximproved: bool,
    distsq: &[F64],
    den: &[F64],
    rho: F64,
    score: &mut Vec<F64>,
)
    requires
        den@.len() == distsq@.len(),
        old(score)@.len() == distsq@.len(),
    ensures
        final(score)@ == drop_scores(kopt as int, ximproved, distsq@, den@, rho),
{
    let ghost goal: Seq<F64> = drop_scores(kopt as int, ximproved, distsq@, den@, rho);
    for k in 0..distsq.len()
        invariant
            den@.len() == distsq@.len(),
            score@.len() == distsq@.len(),
            goal == drop_scores(kopt as int, ximproved, distsq@, den@, rho),
            forall|j: int| 0 <= j < k ==> score@[j] == goal[j],
    {
        let m: F64 = (distsq[k] / (rho * rho)).max(one());
        let m2: F64 = m * m;
        let v: F64 = (m2 * m2) * den[k];
        score[k] = if (!ximproved && k == kopt) || v.is_nan() {
            minus_one()
        } else {
            v
        };
    }
    assert(score@ =~= goal);
}

/// The point to drop after a trust-region step; denominators that are known already are taken
/// from `den`.
pub fn setdrop_tr_with(
    kopt: usize,
    ximproved: bool,
    bmat: &Mat,
    d: &[F64],
    rho: F64,
    xpt: &Mat,
    zmat: &Mat,
    ws: &mut GeostepWs,
    den: Option<&[F64]>,
) -> (knew: Option<usize>)
    requires
        set_shaped(d@.len(), xpt@.len(), xpt, bmat, zmat),
        kopt < xpt@.len(),
        old(ws).fits(d@.len(), xpt@.len()),
        den matches Some(v) ==> v@.len() == xpt@.len(),
    ensures
        ({
            let dens = match den {
                Some(v) => v@,
                None => denominators(kopt as int, bmat@, d@, xpt@, zmat@),
            };
            match knew {
                Some(k) => {
                    &&& k < xpt@.len()
                    &&& point_to_drop(kopt as int, ximproved, d@, rho, xpt@, dens) == Some(k as int)
                },
                None => point_to_drop(kopt as int, ximproved, d@, rho, xpt@, dens) is None,
            }
        }),
        ximproved ==> knew is Some,
        !ximproved ==> knew != Some(kopt),
        final(ws).fits(d@.len(), xpt@.len()),
        final(ws).cal.count == (if den is Some {
            old(ws).cal.count
        } else {
            bumped(old(ws).cal.count)
        }),
{
    assert(xpt@[kopt as int].len() == d@.len());
    if ximproved {
        sum_into(xpt.col(kopt), d, &mut ws.xopt);
    } else {
        copy(&mut ws.xopt, xpt.col(kopt));
    }
    squared_distances_into(xpt, &ws.xopt, &mut ws.distsq);
    match den {
        Some(v) => {
            copy(&mut ws.den, v);
        },
        None => {
            calden_into(kopt, bmat, d, xpt, zmat, &mut ws.cal, &mut ws.den);
        },
    }
    drop_scores_into(kopt, ximproved, &ws.distsq, &ws.den, rho, &mut ws.score);
    proof {
        lemma_drop_choice(kopt as int, ximproved, d@, rho, xpt@, ws.den@);
    }
    if has_above(&ws.score, one()) || (ximproved && has_above(&ws.score, zero())) {
        Some(argmax(&ws.score))
    } else if ximproved {
        Some(argmax(&ws.distsq))
    } else {
        None
    }
}

/// The point to drop after a trust-region step: after an improvement there is one, and without
/// one it is never the best point.
pub fn setdrop_tr(
    kopt: usize,
    ximproved: bool,
    bmat: &Mat,
    d: &[F64],
    _delta: F64,
    rho: F64,
    xpt: &Mat,
    zmat: &Mat,
    ws: &mut GeostepWs,
) -> (knew: Option<usize>)
    requires
        set_shaped(d@.len(), xpt@.len(), xpt, bmat, zmat),
        kopt < xpt@.len(),
        old(ws).fits(d@.len(), xpt@.len()),
    ensures
        ({
            let dens = denominators(kopt as int, bmat@, d@, xpt@, zmat@);
            match knew {
                Some(k) => {
                    &&& k < xpt@.len()
                    &&& point_to_drop(kopt as int, ximproved, d@, rho, xpt@, dens) == Some(k as int)
                },
                None => point_to_drop(kopt as int, ximproved, d@, rho, xpt@, dens) is None,
            }
        }),
        ximproved ==> knew is Some,
        !ximproved ==> knew != Some(kopt),
        final(ws).fits(d@.len(), xpt@.len()),
        final(ws).cal.count == bumped(old(ws).cal.count),
{
    setdrop_tr_with(kopt, ximproved, bmat, d, rho, xpt, zmat, ws, None)
}

/// The first position of the largest entry that is not NaN.
fn real_argmax(f: &[F64]) -> (r: Option<usize>)
    ensures
        (match r {
            Some(i) => i < f@.len() && first_real_max(f@, f@.len()) == Some(i as int),
            None => first_real_max(f@, f@.len()) is None,
        }),
{
    let mut best: usize = 0;
    let mut found: bool = false;
    for k in 0..f.len()
        invariant
            best < f@.len() || !found,
            first_real_max(f@, k as nat) == (if found {
                Some(best as int)
            } else {
                None
            }),
    {
        if !f[k].is_nan() && (!found || f[k].gt(f[best])) {
            best = k;
            found = true;
        }
    }
    if found {
        Some(best)
    } else {
        None
    }
}

/// The first position of the smallest entry that is not NaN.
fn real_argmin(f: &[F64]) -> (r: Option<usize>)
    ensures
        (match r {
            Some(i) => i < f@.len() && first_real_min(f@, f@.len()) == Some(i as int),
            None => first_real_min(f@, f@.len()) is None,
        }),
{
    let mut best: usize = 0;
    let mut found: bool = false;
    for k in 0..f.len()
        invariant
            best < f@.len() || !found,
            first_real_min(f@, k as nat) == (if found {
                Some(best as int)
            } else {
                None
            }),
    {
        if !f[k].is_nan() && (!found || f[k].lt(f[best])) {
            best = k;
            found = true;
        }
    }
    if found {
        Some(best)
    } else {
        None
    }
}

/// The step at which a variable reaches its lower bound.
fn fraction_low(gap: F64, xdiff: F64, subd: F64) -> (r: F64)
    ensures
        r == lower_fraction(gap, xdiff, subd),
{
    if gap.gt(xdiff.abs().negated() * subd) {
        gap / xdiff
    } else {
        subd.copysign(xdiff.negated())
    }
}

/// The step at which a variable reaches its upper bound.
fn fraction_high(gap: F64, xdiff: F64, subd: F64) -> (r: F64)
    ensures
        r == upper_fraction(gap, xdiff, subd),
{
    if gap.lt(xdiff.abs() * subd) {
        gap / xdiff
    } else {
        subd.copysign(xdiff)
    }
}

/// The least step on the line to `x` and the bound that it runs into.
fn find_least_step(
    xopt: &[F64],
    x: &[F64],
    sl: &[F64],
    su: &[F64],
    subd: F64,
    steps: &mut Vec<F64>,
) -> (r: (F64, Hit))
    requires
        xopt@.len() == x@.len(),
        sl@.len() == x@.len(),
        su@.len() == x@.len(),
        old(steps)@.len() == x@.len(),
    ensures
        r == least_step(xopt@, x@, sl@, su@, subd),
        final(steps)@.len() == x@.len(),
{
    let ghost goal: Seq<F64> = least_steps(xopt@, x@, sl@, su@, subd);
    for i in 0..x.len()
        invariant
            xopt@.len() == x@.len(),
            sl@.len() == x@.len(),
            su@.len() == x@.len(),
            steps@.len() == x@.len(),
            goal == least_steps(xopt@, x@, sl@, su@, subd),
            forall|j: int| 0 <= j < i ==> steps@[j] == goal[j],
    {
        let xdiff: F64 = x[i] - xopt[i];
        steps[i] = if xdiff.gt(zero()) {
            fraction_low(sl[i] - xopt[i], xdiff, subd)
        } else if xdiff.lt(zero()) {
            fraction_high(su[i] - xopt[i], xdiff, subd)
        } else {
            subd.negated()
        };
    }
    assert(steps@ =~= goal);
    let slbd: F64 = subd.negated();
    if has_above(steps, slbd) {
        match real_argmax(steps) {
            Some(i) => {
                let hit: Hit = if (x[i] - xopt[i]).is_sign_negative() {
                    Hit::Upper(i)
                } else {
                    Hit::Lower(i)
                };
                return (steps[i], hit);
            },
            None => {},
        }
    }
    (slbd, Hit::Nothing)
}

/// The largest step on the line to `x` and the bound that it runs into.
fn find_largest_step(
    xopt: &[F64],
    x: &[F64],
    sl: &[F64],
    su: &[F64],
    subd: F64,
    steps: &mut Vec<F64>,
) -> (r: (F64, Hit))
    requires
        xopt@.len() == x@.len(),
        sl@.len() == x@.len(),
        su@.len() == x@.len(),
        old(steps)@.len() == x@.len(),
    ensures
        r == largest_step(xopt@, x@, sl@, su@, subd),
        final(steps)@.len() == x@.len(),
{
    let ghost goal: Seq<F64> = largest_steps(xopt@, x@, sl@, su@, subd);
    for i in 0..x.len()
        invariant
            xopt@.len() == x@.len(),
            sl@.len() == x@.len(),
            su@.len() == x@.len(),
            steps@.len() == x@.len(),
            goal == largest_steps(xopt@, x@, sl@, su@, subd),
            forall|j: int| 0 <= j < i ==> steps@[j] == goal[j],
    {
        let xdiff: F64 = x[i] - xopt[i];
        steps[i] = if xdiff.gt(zero()) {
            fraction_high(su[i] - xopt[i], xdiff, subd)
        } else if xdiff.lt(zero()) {
            fraction_low(sl[i] - xopt[i], xdiff, subd)
        } else {
            subd
        };
    }
    assert(steps@ =~= goal);
    if has_below(steps, subd) {
        match real_argmin(steps) {
            Some(i) => {
                let hit: Hit = if (x[i] - xopt[i]).is_sign_negative() {
                    Hit::Lower(i)
                } else {
                    Hit::Upper(i)
                };
                return (one().min(subd).max(steps[i]), hit);
            },
            None => {},
        }
    }
    (subd, Hit::Nothing)
}

/// The line to `x`.
fn find_line(
    xopt: &[F64],
    x: &[F64],
    sl: &[F64],
    su: &[F64],
    delbar: F64,
    distsq: F64,
    slope: F64,
    own: bool,
    steps: &mut Vec<F64>,
) -> (r: Line)
    requires
        xopt@.len() == x@.len(),
        sl@.len() == x@.len(),
        su@.len() == x@.len(),
        old(steps)@.len() == x@.len(),
    ensures
        r == line_of(xopt@, x@, sl@, su@, delbar, distsq, slope, own),
        final(steps)@.len() == x@.len(),
{
    let reach: F64 = delbar / distsq.sqrt();
    let (slbd, at_least): (F64, Hit) = find_least_step(xopt, x, sl, su, reach, steps);
    let (subd, at_most): (F64, Hit) = find_largest_step(xopt, x, sl, su, reach, steps);
    let critical: F64 = if own {
        if (one() - slope).abs().gt(zero()) {
            half().negated() * slope / (one() - slope)
        } else {
            slbd
        }
    } else {
        half()
    };
    Line { slbd, subd, stpm: slbd.max(subd.min(critical)), at_least, at_most }
}

/// The predicted size of the denominator after the step `t` on a line.
fn predict(t: F64, slope: F64, distsq: F64, alpha: F64, own: bool) -> (r: F64)
    ensures
        r == prediction(t, slope, distsq, alpha, own),
{
    let v: F64 = if own {
        t * (t * (one() - slope) + slope)
    } else {
        t * (one() - t) * slope
    };
    let vlag: F64 = if v.is_nan() {
        zero()
    } else {
        v
    };
    let b: F64 = t * (one() - t) * distsq;
    let betabd: F64 = half() * b * b;
    let v2: F64 = vlag * vlag;
    let p: F64 = v2 * (v2 + alpha * betabd);
    if p.is_nan() {
        zero()
    } else {
        p
    }
}

/// Step number `i` of a line.
fn step_number(l: Line, i: usize) -> (r: F64)
    ensures
        r == line_step(l, i as int),
{
    if i == 0 {
        l.slbd
    } else if i == 1 {
        l.subd
    } else {
        l.stpm
    }
}

/// The line with the largest prediction for step number `i`, and that prediction.
fn find_best_line(
    i: usize,
    knew: usize,
    alpha: F64,
    lines: &[Line],
    slopes: &[F64],
    distsq: &[F64],
    pred: &mut Vec<F64>,
    g: Ghost<Improvement>,
) -> (r: (usize, F64))
    requires
        g@.knew == knew,
        g@.xpt.len() > 0,
        lines@ == lines_of(g@),
        slopes@ == g@.slopes(),
        distsq@ == g@.distsq(),
        alpha == g@.pqlag()[g@.knew],
        old(pred)@.len() == g@.xpt.len(),
    ensures
        r.0 == best_line(g@, i as int),
        r.0 < g@.xpt.len(),
        r.1 == best_prediction(g@, i as int),
        final(pred)@.len() == g@.xpt.len(),
{
    let npt: usize = pred.len();
    let ghost goal: Seq<F64> = predictions(g@, i as int);
    for k in 0..npt
        invariant
            npt == g@.xpt.len(),
            g@.knew == knew,
            lines@ == lines_of(g@),
            slopes@ == g@.slopes(),
            distsq@ == g@.distsq(),
            alpha == g@.pqlag()[g@.knew],
            pred@.len() == npt,
            goal == predictions(g@, i as int),
            forall|j: int| 0 <= j < k ==> pred@[j] == goal[j],
    {
        pred[k] = predict(step_number(lines[k], i), slopes[k], distsq[k], alpha, k == knew);
    }
    assert(pred@ =~= goal);
    let best: usize = argmax(pred);
    (best, pred[best])
}

/// The negative of a vector.
fn negate(x: &mut Vec<F64>)
    ensures
        final(x)@ == negative(old(x)@),
{
    let n: usize = x.len();
    for i in 0..n
        invariant
            x@.len() == n,
            n == old(x)@.len(),
            forall|j: int| 0 <= j < i ==> x@[j] == -old(x)@[j],
            forall|j: int| i <= j < n ==> x@[j] == old(x)@[j],
    {
        x[i] = x[i].negated();
    }
    assert(x@ =~= negative(old(x)@));
}

/// Writes the step towards point `knew` into `d`.
fn fall_back(
    knew: usize,
    xopt: &[F64],
    delbar: F64,
    xpt: &Mat,
    d: &mut Vec<F64>,
    g: Ghost<Improvement>,
)
    requires
        g@.knew == knew,
        g@.xopt() == xopt@,
        g@.delbar == delbar,
        g@.xpt == xpt@,
        knew < xpt@.len(),
        xpt@[knew as int].len() == xopt@.len(),
        old(d)@.len() == xopt@.len(),
    ensures
        final(d)@ == fallback_step(g@),
{
    difference_into(xpt.col(knew), xopt, d);
    let c: F64 = half().min(delbar / norm(d));
    scale(d, c);
}

/// Marks the variables that the gradient can move in `s`, and returns the sum of the squares of
/// their gradient entries.
fn mark_movable(
    xopt: &[F64],
    sl: &[F64],
    su: &[F64],
    glag: &[F64],
    big: F64,
    s: &mut Vec<F64>,
) -> (ggfree: F64)
    requires
        xopt@.len() == glag@.len(),
        sl@.len() == glag@.len(),
        su@.len() == glag@.len(),
        old(s)@.len() == glag@.len(),
    ensures
        ({
            let mask = movable(xopt@, sl@, su@, glag@);
            &&& final(s)@ == marked(mask, big)
            &&& ggfree == masked_sumsq_from(zero(), glag@, mask, glag@.len())
        }),
{
    let ghost mask: Seq<bool> = movable(xopt@, sl@, su@, glag@);
    let mut acc: F64 = zero();
    for i in 0..glag.len()
        invariant
            xopt@.len() == glag@.len(),
            sl@.len() == glag@.len(),
            su@.len() == glag@.len(),
            s@.len() == glag@.len(),
            mask == movable(xopt@, sl@, su@, glag@),
            acc == masked_sumsq_from(zero(), glag@, mask, i as nat),
            forall|j: int| 0 <= j < i ==> s@[j] == marked(mask, big)[j],
    {
        let free: bool = (xopt[i] - sl[i]).min(glag[i]).gt(zero()) || (xopt[i] - su[i]).max(
            glag[i],
        ).lt(zero());
        assert(free == mask[i as int]);
        if free {
            s[i] = big;
            acc = acc + glag[i] * glag[i];
        } else {
            s[i] = zero();
        }
    }
    assert(s@ =~= marked(mask, big));
    acc
}

/// The numbers of the state while variables are fixed.
struct FixVars {
    sfixsq: F64,
    grdstp: F64,
    ggfree: F64,
    ended: bool,
}

/// The state while variables are fixed.
spec fn fixing_in(v: FixVars, s: Seq<F64>) -> Fixing {
    Fixing { s, sfixsq: v.sfixsq, grdstp: v.grdstp, ggfree: v.ggfree, ended: v.ended }
}

/// Fixes the variables that the present step takes to bounds.
fn fix_more(
    xopt: &[F64],
    sl: &[F64],
    su: &[F64],
    glag: &[F64],
    delbar: F64,
    s: &mut Vec<F64>,
    v: &mut FixVars,
    g: Ghost<Improvement>,
)
    requires
        g@.xopt() == xopt@,
        g@.sl == sl@,
        g@.su == su@,
        g@.delbar == delbar,
        xopt@.len() == glag@.len(),
        sl@.len() == glag@.len(),
        su@.len() == glag@.len(),
        old(s)@.len() == glag@.len(),
        !old(v).ended,
    ensures
        fixing_in(*final(v), final(s)@) == fixing_step(g@, glag@, fixing_in(*old(v), old(s)@)),
        final(s)@.len() == glag@.len(),
{
    let n: usize = glag.len();
    let resis: F64 = delbar * delbar - v.sfixsq;
    if resis.le(zero()) {
        v.ended = true;
        return;
    }
    let big: F64 = delbar + delbar;
    let saved: F64 = v.sfixsq;
    let grdstp: F64 = (resis / v.ggfree).sqrt();
    let ghost s0: Seq<F64> = s@;
    let ghost goal: Seq<F64> = fixed_step(g@, glag@, s0, grdstp);
    let ghost fix: Seq<bool> = newly_fixed(g@, glag@, s0, grdstp);
    let ghost free: Seq<bool> = still_free(g@, glag@, s0, grdstp);
    let mut sfixsq: F64 = saved;
    let mut ggfree: F64 = zero();
    for i in 0..n
        invariant
            n == glag@.len(),
            g@.xopt() == xopt@,
            g@.sl == sl@,
            g@.su == su@,
            g@.delbar == delbar,
            big == delbar + delbar,
            xopt@.len() == n,
            sl@.len() == n,
            su@.len() == n,
            s@.len() == n,
            s0.len() == n,
            goal == fixed_step(g@, glag@, s0, grdstp),
            fix == newly_fixed(g@, glag@, s0, grdstp),
            free == still_free(g@, glag@, s0, grdstp),
            sfixsq == masked_sumsq_from(saved, goal, fix, i as nat),
            ggfree == masked_sumsq_from(zero(), glag@, free, i as nat),
            forall|j: int| 0 <= j < i ==> s@[j] == goal[j],
            forall|j: int| i <= j < n ==> s@[j] == s0[j],
    {
        let moving: bool = s[i].ge(big);
        let xtemp: F64 = xopt[i] - grdstp * glag[i];
        let low: bool = moving && xtemp.le(sl[i]);
        let high: bool = moving && xtemp.ge(su[i]);
        assert(fix[i as int] == (low || high));
        assert(free[i as int] == (moving && !(low || high)));
        if high {
            s[i] = su[i] - xopt[i];
        } else if low {
            s[i] = sl[i] - xopt[i];
        }
        if low || high {
            sfixsq = sfixsq + s[i] * s[i];
        } else if moving {
            ggfree = ggfree + glag[i] * glag[i];
        }
    }
    assert(s@ =~= goal);
    v.sfixsq = sfixsq;
    v.grdstp = grdstp;
    v.ggfree = ggfree;
    v.ended = !(sfixsq.gt(saved) && ggfree.gt(zero()));
}

/// Writes the Cauchy point into `x` and replaces `s` by the Cauchy step.
fn finish_cauchy(
    xopt: &[F64],
    sl: &[F64],
    su: &[F64],
    glag: &[F64],
    delbar: F64,
    grdstp: F64,
    s: &mut Vec<F64>,
    x: &mut Vec<F64>,
    g: Ghost<Improvement>,
    f: Ghost<Fixing>,
)
    requires
        g@.xopt() == xopt@,
        g@.sl == sl@,
        g@.su == su@,
        g@.delbar == delbar,
        f@.s == old(s)@,
        f@.grdstp == grdstp,
        xopt@.len() == glag@.len(),
        sl@.len() == glag@.len(),
        su@.len() == glag@.len(),
        old(s)@.len() == glag@.len(),
        old(x)@.len() == glag@.len(),
    ensures
        final(x)@ == cauchy_point(g@, glag@, f@),
        final(s)@ == cauchy_direction(g@, glag@, f@),
{
    let n: usize = glag.len();
    let big: F64 = delbar + delbar;
    let ghost gx: Seq<F64> = cauchy_point(g@, glag@, f@);
    let ghost gs: Seq<F64> = cauchy_direction(g@, glag@, f@);
    for i in 0..n
        invariant
            n == glag@.len(),
            g@.xopt() == xopt@,
            g@.sl == sl@,
            g@.su == su@,
            g@.delbar == delbar,
            big == delbar + delbar,
            f@.grdstp == grdstp,
            xopt@.len() == n,
            sl@.len() == n,
            su@.len() == n,
            s@.len() == n,
            x@.len() == n,
            f@.s.len() == n,
            gx == cauchy_point(g@, glag@, f@),
            gs == cauchy_direction(g@, glag@, f@),
            forall|j: int| 0 <= j < i ==> x@[j] == gx[j] && s@[j] == gs[j],
            forall|j: int| i <= j < n ==> s@[j] == f@.s[j],
    {
        if s[i].ge(big) {
            x[i] = (xopt[i] - grdstp * glag[i]).min(su[i]).max(sl[i]);
            s[i] = grdstp.negated() * glag[i];
        } else if s[i].abs().le(zero()) {
            x[i] = xopt[i];
        } else if glag[i].le(zero()) {
            x[i] = su[i];
        } else if glag[i].gt(zero()) {
            x[i] = sl[i];
        } else {
            x[i] = zero();
        }
    }
    assert(x@ =~= gx);
    assert(s@ =~= gs);
}

/// Writes the point `scaling` times the step away from the best point into `x`.
fn shorten_into(
    xopt: &[F64],
    sl: &[F64],
    su: &[F64],
    s: &[F64],
    scaling: F64,
    x: &mut Vec<F64>,
    g: Ghost<Improvement>,
)
    requires
        g@.xopt() == xopt@,
        g@.sl == sl@,
        g@.su == su@,
        xopt@.len() == s@.len(),
        sl@.len() == s@.len(),
        su@.len() == s@.len(),
        old(x)@.len() == s@.len(),
    ensures
        final(x)@ == shortened(g@, s@, scaling),
{
    let ghost goal: Seq<F64> = shortened(g@, s@, scaling);
    for i in 0..s.len()
        invariant
            g@.xopt() == xopt@,
            g@.sl == sl@,
            g@.su == su@,
            xopt@.len() == s@.len(),
            sl@.len() == s@.len(),
            su@.len() == s@.len(),
            x@.len() == s@.len(),
            goal == shortened(g@, s@, scaling),
            forall|j: int| 0 <= j < i ==> x@[j] == goal[j],
    {
        x[i] = (xopt[i] + scaling * s[i]).min(su[i]).max(sl[i]);
    }
    assert(x@ =~= goal);
}

/// Tries the Cauchy step against `ws.glag`; a better point goes to `ws.xcauchy`, and the
/// squared value of the Lagrange function at the best point is returned.
fn try_cauchy(
    sl: &[F64],
    su: &[F64],
    delbar: F64,
    xpt: &Mat,
    uphill: bool,
    best: F64,
    ws: &mut GeostepWs,
    g: Ghost<Improvement>,
) -> (vlagsq: F64)
    requires
        g@.xopt() == old(ws).xopt@,
        g@.sl == sl@,
        g@.su == su@,
        g@.delbar == delbar,
        g@.xpt == xpt@,
        g@.pqlag() == old(ws).pqlag@,
        sl@.len() == old(ws).glag@.len(),
        su@.len() == old(ws).glag@.len(),
        xpt.is(sl@.len(), xpt@.len()),
        old(ws).fits(sl@.len(), xpt@.len()),
    ensures
        (Cauchy { x: final(ws).xcauchy@, vlagsq }) == cauchy_try(
            g@,
            old(ws).glag@,
            uphill,
            Cauchy { x: old(ws).xcauchy@, vlagsq: best },
        ),
        final(ws).fits(sl@.len(), xpt@.len()),
        final(ws).xopt@ == old(ws).xopt@,
        final(ws).glag@ == old(ws).glag@,
        final(ws).pqlag@ == old(ws).pqlag@,
        final(ws).den@ == old(ws).den@,
        final(ws).cal == old(ws).cal,
{
    let n: usize = sl.len();
    let big: F64 = delbar + delbar;
    let ghost glag: Seq<F64> = ws.glag@;
    let ggfree: F64 = mark_movable(&ws.xopt, sl, su, &ws.glag, big, &mut ws.s);
    if ggfree.le(zero()) || ggfree.is_nan() {
        return best;
    }
    let mut v: FixVars = FixVars { sfixsq: zero(), grdstp: zero(), ggfree, ended: false };
    let ghost f0: Fixing = fixing_start(g@, glag);
    assert(fixing_in(v, ws.s@) == f0);
    let mut iter: usize = 0;
    while iter < n && !v.ended
        invariant
            g@.xopt() == ws.xopt@,
            g@.sl == sl@,
            g@.su == su@,
            g@.delbar == delbar,
            g@.pqlag() == ws.pqlag@,
            n == sl@.len(),
            n == su@.len(),
            ws.fits(n as nat, xpt@.len()),
            ws.glag@ == glag,
            ws.xopt@ == old(ws).xopt@,
            ws.xcauchy@ == old(ws).xcauchy@,
            ws.pqlag@ == old(ws).pqlag@,
            ws.den@ == old(ws).den@,
            ws.cal == old(ws).cal,
            iter <= n,
            fixing_run(g@, glag, f0, n as nat) == fixing_run(
                g@,
                glag,
                fixing_in(v, ws.s@),
                (n - iter) as nat,
            ),
        decreases n - iter,
    {
        fix_more(&ws.xopt, sl, su, &ws.glag, delbar, &mut ws.s, &mut v, g);
        iter = iter + 1;
    }
    let ghost f: Fixing = fixing_in(v, ws.s@);
    assert(f == fixing_run(g@, glag, f0, n as nat));
    finish_cauchy(
        &ws.xopt,
        sl,
        su,
        &ws.glag,
        delbar,
        v.grdstp,
        &mut ws.s,
        &mut ws.x,
        g,
        Ghost(f),
    );
    let gs: F64 = inprod(&ws.glag, &ws.s);
    matprod12_into(&ws.s, xpt, &mut ws.sxpt);
    let npt: usize = ws.sxpt.len();
    for k in 0..npt
        invariant
            ws.fits(n as nat, npt as nat),
            ws.glag@ == glag,
            ws.xopt@ == old(ws).xopt@,
            ws.xcauchy@ == old(ws).xcauchy@,
            ws.pqlag@ == old(ws).pqlag@,
            ws.den@ == old(ws).den@,
            ws.cal == old(ws).cal,
            ws.s@ == cauchy_direction(g@, glag, f),
            ws.x@ == cauchy_point(g@, glag, f),
            ws.sxpt@ == vecmat(ws.s@, xpt@),
            forall|j: int| 0 <= j < k ==> ws.pqsxpt@[j] == ws.pqlag@[j] * ws.sxpt@[j],
    {
        ws.pqsxpt[k] = ws.pqlag[k] * ws.sxpt[k];
    }
    assert(ws.pqsxpt@ =~= products(ws.pqlag@, ws.sxpt@));
    let c0: F64 = inprod(&ws.sxpt, &ws.pqsxpt);
    let curv: F64 = if uphill {
        c0.negated()
    } else {
        c0
    };
    let vlagsq: F64;
    if curv.gt(gs.negated()) && curv.lt((one() + two().sqrt()).negated() * gs) {
        let scaling: F64 = gs.negated() / curv;
        shorten_into(&ws.xopt, sl, su, &ws.s, scaling, &mut ws.x, g);
        let h: F64 = half() * gs * scaling;
        vlagsq = h * h;
    } else {
        let t: F64 = gs + half() * curv;
        vlagsq = t * t;
    }
    if vlagsq.gt(best) {
        copy(&mut ws.xcauchy, &ws.x);
        vlagsq
    } else {
        best
    }
}

/// Fills the distances, slopes and lines of the scratch space.
fn search_lines(
    knew: usize,
    kopt: usize,
    delbar: F64,
    sl: &[F64],
    su: &[F64],
    xpt: &Mat,
    ws: &mut GeostepWs,
    g: Ghost<Improvement>,
)
    requires
        g@.knew == knew,
        g@.kopt == kopt,
        g@.sl == sl@,
        g@.su == su@,
        g@.delbar == delbar,
        g@.xpt == xpt@,
        g@.xopt() == old(ws).xopt@,
        g@.glag() == old(ws).glag@,
        g@.pqlag() == old(ws).pqlag@,
        kopt < xpt@.len(),
        knew < xpt@.len(),
        sl@.len() == old(ws).glag@.len(),
        su@.len() == old(ws).glag@.len(),
        xpt.is(sl@.len(), xpt@.len()),
        old(ws).fits(sl@.len(), xpt@.len()),
    ensures
        final(ws).lines@ == lines_of(g@),
        final(ws).slopes@ == g@.slopes(),
        final(ws).distsq@ == g@.distsq(),
        final(ws).fits(sl@.len(), xpt@.len()),
        final(ws).xopt@ == old(ws).xopt@,
        final(ws).glag@ == old(ws).glag@,
        final(ws).pqlag@ == old(ws).pqlag@,
        final(ws).cal == old(ws).cal,
{
    let n: usize = sl.len();
    let npt: usize = xpt.ncols();
    let along: F64 = inprod(&ws.glag, &ws.xopt);
    squared_distances_into(xpt, &ws.xopt, &mut ws.distsq);
    for k in 0..npt
        invariant
            n == sl@.len(),
            n == su@.len(),
            npt == xpt@.len(),
            g@.knew == knew,
            g@.kopt == kopt,
            g@.sl == sl@,
            g@.su == su@,
            g@.delbar == delbar,
            g@.xpt == xpt@,
            xpt.is(n as nat, npt as nat),
            ws.fits(n as nat, npt as nat),
            ws.xopt@ == g@.xopt(),
            ws.glag@ == g@.glag(),
            ws.pqlag@ == g@.pqlag(),
            ws.distsq@ == g@.distsq(),
            ws.cal == old(ws).cal,
            along == dot(g@.glag(), g@.xopt()),
            forall|j: int| 0 <= j < k ==> ws.slopes@[j] == g@.slopes()[j],
            forall|j: int| 0 <= j < k ==> ws.lines@[j] == lines_of(g@)[j],
    {
        assert(xpt@[k as int].len() == n);
        let slope: F64 = inprod(&ws.glag, xpt.col(k)) - along;
        if k == kopt || slope.is_nan() {
            ws.slopes[k] = zero();
            ws.lines[k] = unsearched();
        } else {
            ws.slopes[k] = slope;
            let line: Line = find_line(
                &ws.xopt,
                xpt.col(k),
                sl,
                su,
                delbar,
                ws.distsq[k],
                slope,
                k == knew,
                &mut ws.steps,
            );
            ws.lines[k] = line;
        }
    }
    assert(ws.slopes@ =~= g@.slopes());
    assert(ws.lines@ =~= lines_of(g@));
}

/// Writes the end of a step on the line to `x`, minus the best point, into `d`.
fn line_step_into(
    xopt: &[F64],
    x: &[F64],
    sl: &[F64],
    su: &[F64],
    t: F64,
    hit: Hit,
    d: &mut Vec<F64>,
)
    requires
        xopt@.len() == x@.len(),
        sl@.len() == x@.len(),
        su@.len() == x@.len(),
        old(d)@.len() == x@.len(),
    ensures
        final(d)@ == Seq::new(
            x@.len(),
            |i: int|
                line_coordinate(hit, i, xopt@[i] + t * (x@[i] - xopt@[i]), sl@[i], su@[i]) - xopt@[i],
        ),
{
    let ghost goal: Seq<F64> = Seq::new(
        x@.len(),
        |i: int|
            line_coordinate(hit, i, xopt@[i] + t * (x@[i] - xopt@[i]), sl@[i], su@[i]) - xopt@[i],
    );
    for i in 0..x.len()
        invariant
            xopt@.len() == x@.len(),
            sl@.len() == x@.len(),
            su@.len() == x@.len(),
            d@.len() == x@.len(),
            goal == Seq::new(
                x@.len(),
                |i: int|
                    line_coordinate(hit, i, xopt@[i] + t * (x@[i] - xopt@[i]), sl@[i], su@[i])
                        - xopt@[i],
            ),
            forall|j: int| 0 <= j < i ==> d@[j] == goal[j],
    {
        let v: F64 = if hit == Hit::Lower(i) {
            sl[i]
        } else if hit == Hit::Upper(i) {
            su[i]
        } else {
            (xopt[i] + t * (x[i] - xopt[i])).min(su[i]).max(sl[i])
        };
        d[i] = v - xopt[i];
    }
    assert(d@ =~= goal);
}

/// Writes a step from the best point that improves the geometry, when it replaces point `knew`,
/// into `d`.
pub fn geostep(
    knew: usize,
    kopt: usize,
    bmat: &Mat,
    delbar: F64,
    sl: &[F64],
    su: &[F64],
    xpt: &Mat,
    zmat: &Mat,
    d: &mut Vec<F64>,
    ws: &mut GeostepWs,
)
    requires
        set_shaped(sl@.len(), xpt@.len(), xpt, bmat, zmat),
        su@.len() == sl@.len(),
        old(d)@.len() == sl@.len(),
        kopt < xpt@.len(),
        knew < xpt@.len(),
        old(ws).fits(sl@.len(), xpt@.len()),
    ensures
        ({
            let g = Improvement {
                knew: knew as int,
                kopt: kopt as int,
                bmat: bmat@,
                delbar,
                sl: sl@,
                su: su@,
                xpt: xpt@,
                zmat: zmat@,
            };
            &&& final(d)@ == geometry_step(g)
            &&& final(ws).cal.count == geometry_count(g, old(ws).cal.count)
        }),
        final(d)@.len() == sl@.len(),
        final(ws).fits(sl@.len(), xpt@.len()),
{
    let n: usize = sl.len();
    let npt: usize = xpt.ncols();
    let ghost g: Improvement = Improvement {
        knew: knew as int,
        kopt: kopt as int,
        bmat: bmat@,
        delbar,
        sl: sl@,
        su: su@,
        xpt: xpt@,
        zmat: zmat@,
    };
    assert(xpt@[kopt as int].len() == n && xpt@[knew as int].len() == n);
    assert(bmat@[knew as int].len() == n);
    row_into(zmat, knew, &mut ws.zrow);
    matprod21_into(zmat, &ws.zrow, &mut ws.pqlag);
    assert(ws.pqlag@ == g.pqlag());
    let alpha: F64 = ws.pqlag[knew];
    copy(&mut ws.xopt, xpt.col(kopt));
    implicit_mul_into(&ws.xopt, xpt, &ws.pqlag, &mut ws.dxpt, &mut ws.s);
    sum_into(bmat.col(knew), &ws.s, &mut ws.glag);
    assert(ws.glag@ =~= g.glag());
    if !sum_abs(&ws.glag).is_finite() {
        fall_back(knew, &ws.xopt, delbar, xpt, d, Ghost(g));
        return;
    }
    search_lines(knew, kopt, delbar, sl, su, xpt, ws, Ghost(g));
    let (k0, p0): (usize, F64) = find_best_line(
        0,
        knew,
        alpha,
        &ws.lines,
        &ws.slopes,
        &ws.distsq,
        &mut ws.score,
        Ghost(g),
    );
    let (k1, p1): (usize, F64) = find_best_line(
        1,
        knew,
        alpha,
        &ws.lines,
        &ws.slopes,
        &ws.distsq,
        &mut ws.score,
        Ghost(g),
    );
    let (k2, p2): (usize, F64) = find_best_line(
        2,
        knew,
        alpha,
        &ws.lines,
        &ws.slopes,
        &ws.distsq,
        &mut ws.score,
        Ghost(g),
    );
    let picked: [F64; 3] = [p0, p1, p2];
    assert(picked@ =~= seq![p0, p1, p2]);
    let isq: usize = argmax(&picked);
    let ksq: usize = if isq == 0 {
        k0
    } else if isq == 1 {
        k1
    } else {
        k2
    };
    assert(isq == best_step_number(g));
    assert(ksq == best_line(g, isq as int));
    let line: Line = ws.lines[ksq];
    let hit: Hit = if isq == 0 {
        line.at_least
    } else if isq == 1 {
        line.at_most
    } else {
        Hit::Nothing
    };
    assert(xpt@[ksq as int].len() == n);
    line_step_into(&ws.xopt, xpt.col(ksq), sl, su, step_number(line, isq), hit, d);
    assert(d@ =~= line_d(g));
    calden_into(kopt, bmat, d, xpt, zmat, &mut ws.cal, &mut ws.den);
    if delbar.gt(near_floor()) {
        return;
    }
    copy(&mut ws.xcauchy, &ws.xopt);
    let down: F64 = try_cauchy(sl, su, delbar, xpt, false, zero(), ws, Ghost(g));
    negate(&mut ws.glag);
    let _up: F64 = try_cauchy(sl, su, delbar, xpt, true, down, ws, Ghost(g));
    assert(ws.xcauchy@ == best_cauchy(g).x);
    difference_into(&ws.xcauchy, &ws.xopt, &mut ws.s);
    assert(ws.s@ == cauchy_d(g));
    calden_into(kopt, bmat, &ws.s, xpt, zmat, &mut ws.cal, &mut ws.den_cauchy);
    if ws.den_cauchy[knew].gt(ws.den[knew].max(zero())) || ws.den[knew].is_nan() {
        copy(d, &ws.s);
    }
    let size: F64 = sum_abs(d);
    if size.le(zero()) || !size.is_finite() {
        fall_back(knew, &ws.xopt, delbar, xpt, d, Ghost(g));
    }
}

/// Writes row `i` of `m` into `z`.
pub fn row_into(m: &Mat, i: usize, z: &mut Vec<F64>)
    requires
        m.is(m.nrows as nat, old(z)@.len()),
        i < m.nrows,
    ensures
        final(z)@ == row(m@, i as int),
{
    let nc: usize = z.len();
    for j in 0..nc
        invariant
            z@.len() == nc,
            m.is(m.nrows as nat, nc as nat),
            i < m.nrows,
            forall|c: int| 0 <= c < j ==> z@[c] == m@[c][i as int],
    {
        assert(m@[j as int].len() == m.nrows);
        z[j] = m.get(i, j);
    }
    assert(z@ =~= row(m@, i as int));
}

/// The scan for the smallest entry that is not NaN finds one that is not above any other.
proof fn lemma_first_real_min(f: Seq<F64>, k: nat)
    ensures
        match first_real_min(f, k) {
            None => forall|i: int| 0 <= i < k ==> (#[trigger] f[i]).nan(),
            Some(b) => {
                &&& 0 <= b < k
                &&& !f[b].nan()
                &&& forall|i: int| 0 <= i < k ==> !(#[trigger] f[i] < f[b])
            },
        },
    decreases k,
{
    reveal(below);
    if k > 0 {
        lemma_first_real_min(f, (k - 1) as nat);
    }
}

/// The scan for the largest entry that is not NaN finds one that is not below any other.
proof fn lemma_first_real_max(f: Seq<F64>, k: nat)
    ensures
        match first_real_max(f, k) {
            None => forall|i: int| 0 <= i < k ==> (#[trigger] f[i]).nan(),
            Some(b) => {
                &&& 0 <= b < k
                &&& !f[b].nan()
                &&& forall|i: int| 0 <= i < k ==> !(#[trigger] f[i] > f[b])
            },
        },
    decreases k,
{
    reveal(below);
    if k > 0 {
        lemma_first_real_max(f, (k - 1) as nat);
    }
}

/// The largest step on a line lies between zero and the reach of the trust region.
proof fn lemma_largest_step(
    xopt: Seq<F64>,
    x: Seq<F64>,
    sl: Seq<F64>,
    su: Seq<F64>,
    reach: F64,
)
    requires
        zero() <= reach,
    ensures
        largest_step(xopt, x, sl, su, reach).0.within(zero(), reach),
{
    let t = largest_steps(xopt, x, sl, su, reach);
    lemma_first_real_min(t, t.len());
    reveal(at_most);
    reveal(below);
    reveal(max_of);
    reveal(min_of);
    if let Some(i) = first_real_min(t, t.len()) {
        if any_below(t, reach) {
            let j = choose|j: int| 0 <= j < t.len() && #[trigger] t[j] < reach;
            assert(!(t[j] < t[i]));
        }
    }
}

/// A bound that the best point does not violate leaves a least step that is not above zero.
proof fn lemma_least_fraction(v: F64, lo: F64, hi: F64, x: F64, reach: F64)
    requires
        lo <= v,
        v <= hi,
        zero() <= reach,
    ensures
        ({
            let d = x - v;
            let t = if d > zero() {
                lower_fraction(lo - v, d, reach)
            } else if d < zero() {
                upper_fraction(hi - v, d, reach)
            } else {
                -reach
            };
            t.nan() || t <= zero()
        }),
{
    reveal(at_most);
    reveal(below);
    reveal(with_sign_of);
    let d = x - v;
    lemma_negation_value(d);
    lemma_negation_value(reach);
    lemma_quotient_sign(lo - v, d);
    lemma_quotient_sign(hi - v, d);
    assert((lo - v).nan() || lo - v <= zero()) by {
        lemma_gap(lo, v);
    }
    assert((hi - v).nan() || zero() <= hi - v) by {
        lemma_gap(v, hi);
        lemma_gap_sign(hi, v);
    }
}

/// A quotient is zero, NaN, or has the sign that the signs of its terms give.
proof fn lemma_quotient_sign(a: F64, b: F64)
    ensures
        (a / b).nan() || (a / b).sign() == (a.sign() != b.sign()),
        a.zero() && !b.nan() && !b.zero() ==> (a / b).zero(),
{
    reveal(quotient_of);
    lemma_fields(0);
    if b.finite() && !b.zero() {
        lemma_fields(b.mag());
        lemma_round_zero(units(b.mag()));
        if a.zero() {
            let u = pow2(1074);
            assert(units(a.mag()) * u == 0) by (nonlinear_arith)
                requires
                    units(a.mag()) == 0,
            ;
        }
    }
}

/// A number minus one that is not below it is not above zero.
pub(crate) proof fn lemma_gap(a: F64, b: F64)
    requires
        a <= b,
    ensures
        (a - b).nan() || a - b <= zero(),
{
    reveal(at_most);
    reveal(sum_of);
    reveal(negation_of);
    lemma_negation_value(b);
    if a.finite() && b.finite() {
        lemma_order_value(a, b);
    }
}

/// A number minus one that is not above it is not below zero.
pub(crate) proof fn lemma_gap_sign(a: F64, b: F64)
    requires
        b <= a,
    ensures
        (a - b).nan() || zero() <= a - b,
{
    reveal(at_most);
    reveal(sum_of);
    reveal(negation_of);
    lemma_negation_value(b);
    if a.finite() && b.finite() {
        lemma_order_value(b, a);
    }
}

/// The least step on a line lies between the reach of the trust region, backwards, and zero, if
/// the best point lies between the bounds.
proof fn lemma_least_step(
    xopt: Seq<F64>,
    x: Seq<F64>,
    sl: Seq<F64>,
    su: Seq<F64>,
    reach: F64,
)
    requires
        zero() <= reach,
        in_box(xopt, sl, su),
        x.len() == xopt.len(),
    ensures
        least_step(xopt, x, sl, su, reach).0.within(-reach, zero()),
{
    let t = least_steps(xopt, x, sl, su, reach);
    lemma_first_real_max(t, t.len());
    reveal(at_most);
    reveal(below);
    reveal(negation_of);
    if let Some(i) = first_real_max(t, t.len()) {
        assert(xopt[i].within(sl[i], su[i]));
        lemma_least_fraction(xopt[i], sl[i], su[i], x[i], reach);
        if any_above(t, -reach) {
            let j = choose|j: int| 0 <= j < t.len() && #[trigger] t[j] > -reach;
            assert(!(t[j] > t[i]));
        }
    }
}

/// No step that is tried on a line is longer than the trust region allows: in units of the
/// distance of the point that the line leads to, it is at most the radius by that distance.
pub proof fn lemma_line_in_reach(g: Improvement, k: int, i: int)
    requires
        in_box(g.xopt(), g.sl, g.su),
        0 <= k < g.xpt.len(),
        g.xpt[k].len() == g.xopt().len(),
        zero() <= g.delbar / root_of(g.distsq()[k]),
    ensures
        ({
            let reach = g.delbar / root_of(g.distsq()[k]);
            line_step(lines_of(g)[k], i).within(-reach, reach)
        }),
{
    let reach = g.delbar / root_of(g.distsq()[k]);
    reveal(at_most);
    reveal(below);
    reveal(negation_of);
    reveal(max_of);
    reveal(min_of);
    lemma_least_step(g.xopt(), g.xpt[k], g.sl, g.su, reach);
    lemma_largest_step(g.xopt(), g.xpt[k], g.sl, g.su, reach);
}

/// Every entry is zero.
pub open spec fn is_zero(d: Seq<F64>) -> bool {
    forall|i: int| 0 <= i < d.len() ==> (#[trigger] d[i]).zero()
}

/// The sum of the magnitudes of zeros is zero.
proof fn lemma_abs_sum_zero(d: Seq<F64>, k: nat)
    requires
        is_zero(d),
        k <= d.len(),
    ensures
        partial_sum(magnitudes(d), k).zero(),
    decreases k,
{
    if k > 0 {
        lemma_abs_sum_zero(d, (k - 1) as nat);
        assert(d[k - 1].zero());
        reveal(magnitude_of);
        lemma_zero_stays(partial_sum(magnitudes(d), (k - 1) as nat), magnitudes(d)[k - 1]);
    }
}

/// The difference of two finite numbers is zero exactly where they are the same.
pub(crate) proof fn lemma_difference_zero(a: F64, b: F64)
    requires
        a.finite(),
        b.finite(),
    ensures
        (a - b).zero() <==> same(a, b),
{
    reveal(sum_of);
    lemma_negation_value(b);
    lemma_order_value(a, b);
    lemma_order_value(b, a);
    let s = a.value() - b.value();
    lemma2_to64();
    assert(units(1) == 1) by {
        assert(sig(1) == 1 && expo(1) == 0);
    }
    if s < 0 {
        lemma_round_beside((-s) as nat, 1, 1);
    } else if s > 0 {
        lemma_round_beside(s as nat, 1, 1);
    }
}

/// When the geometry step is zero.  Far from the end of the run it is the step on a line, and
/// zero exactly where that line step ends at the best point, as the roundings have it; otherwise
/// it can be zero only where it is the step towards point `knew`, and every entry of that
/// underflows.
pub proof fn lemma_geometry_zero(g: Improvement)
    requires
        g.xopt().len() == g.sl.len(),
        all_finite(g.xopt()),
        all_finite(line_point(g)),
    ensures
        usable(g) && g.delbar > near_floor() ==> (is_zero(geometry_step(g)) <==> same_point(
            line_point(g),
            g.xopt(),
        )),
        !(usable(g) && g.delbar > near_floor()) && is_zero(geometry_step(g)) ==> geometry_step(g)
            == fallback_step(g) && is_zero(fallback_step(g)),
{
    let x = line_point(g);
    let d = line_d(g);
    assert(x.len() == g.sl.len());
    if usable(g) && g.delbar > near_floor() {
        if is_zero(d) {
            assert forall|i: int| 0 <= i < x.len() implies same(#[trigger] x[i], g.xopt()[i]) by {
                assert(x[i].finite() && g.xopt()[i].finite());
                assert(d[i].zero());
                lemma_difference_zero(x[i], g.xopt()[i]);
            }
        }
        if same_point(x, g.xopt()) {
            assert forall|i: int| 0 <= i < d.len() implies (#[trigger] d[i]).zero() by {
                assert(x[i].finite() && g.xopt()[i].finite());
                assert(same(x[i], g.xopt()[i]));
                lemma_difference_zero(x[i], g.xopt()[i]);
            }
        }
    } else if usable(g) {
        let b = better_step(g);
        if is_zero(b) {
            lemma_abs_sum_zero(b, b.len());
            reveal(at_most);
        }
    }
}

/// The step towards point `knew` is not zero, if some entry of it does not underflow.
pub proof fn lemma_fallback_moves(g: Improvement, i: int)
    requires
        0 <= i < g.xpt[g.knew].len(),
        ({
            let v = minus(g.xpt[g.knew], g.xopt());
            let c = min_of(half(), g.delbar / norm_of(v));
            &&& v[i].finite()
            &&& c.finite()
            &&& unity() <= units(v[i].mag()) * units(c.mag())
        }),
    ensures
        !is_zero(fallback_step(g)),
{
    let v = minus(g.xpt[g.knew], g.xopt());
    let c = min_of(half(), g.delbar / norm_of(v));
    let n = units(v[i].mag()) * units(c.mag());
    reveal(product_of);
    lemma2_to64();
    lemma_pow2_pos(1074);
    assert(sig(1) == 1 && expo(1) == 0);
    assert(units(1) == 1);
    lemma_round_beside(n, unity(), 1);
    assert(!fallback_step(g)[i].zero());
}

/// The scan for the largest entry finds one that is not below any other, if none is NaN.
pub(crate) proof fn lemma_first_max_largest(x: Seq<F64>, k: nat, j: int)
    requires
        k <= x.len(),
        0 <= j < k,
        forall|i: int| 0 <= i < k ==> !(#[trigger] x[i]).nan(),
    ensures
        x[j] <= x[first_max(x, k)],
    decreases k,
{
    reveal(below);
    reveal(at_most);
    lemma_first_in_range(x, k);
    if k > 1 {
        lemma_first_in_range(x, (k - 1) as nat);
        assert(!x[k - 1].nan());
        if j < k - 1 {
            lemma_first_max_largest(x, (k - 1) as nat, j);
        } else {
            lemma_first_max_largest(x, (k - 1) as nat, 0);
        }
    }
}

/// The weight of a point in the choice of the one to drop is one as far as the resolution, and not
/// below one farther away.
pub proof fn lemma_drop_weight(v: F64, rho: F64)
    ensures
        v / (rho * rho) <= one() || (v / (rho * rho)).nan() ==> drop_weight(v, rho) == one(),
        one() <= drop_weight(v, rho),
{
    let m = max_of(v / (rho * rho), one());
    lemma_one();
    lemma_fields(0);
    assert(one() <= m) by {
        reveal(max_of);
        reveal(at_most);
        reveal(below);
    }
    lemma_product_above_one(m, m);
    lemma_product_above_one(m * m, m * m);
    if v / (rho * rho) <= one() || (v / (rho * rho)).nan() {
        assert(m == one()) by {
            reveal(max_of);
            reveal(at_most);
            reveal(below);
        }
    }
}

/// The product of two numbers that are not below one is not below one.
proof fn lemma_product_above_one(a: F64, b: F64)
    requires
        one() <= a,
        one() <= b,
    ensures
        one() <= a * b,
{
    reveal(at_most);
    reveal(product_of);
    lemma_one();
    if a.finite() && b.finite() {
        lemma_units_monotone(one().mag(), a.mag());
        lemma_units_monotone(one().mag(), b.mag());
        let n = units(a.mag()) * units(b.mag());
        assert(n >= unity() * unity()) by (nonlinear_arith)
            requires
                n == units(a.mag()) * units(b.mag()),
                units(a.mag()) >= unity(),
                units(b.mag()) >= unity(),
        ;
        lemma_pow2_pos(1074);
        lemma_round_beside(n, unity(), one().mag());
    }
}

/// The point that is dropped after a trust-region step has the largest product of its denominator
/// with its weight among the points that may be dropped, if some product is above one, or above
/// zero after an improvement.  Otherwise, after an improvement, it is the farthest point.
pub proof fn lemma_drop_best(
    kopt: int,
    ximproved: bool,
    d: Seq<F64>,
    rho: F64,
    xpt: Seq<Seq<F64>>,
    den: Seq<F64>,
    j: int,
)
    requires
        0 <= kopt < xpt.len(),
        den.len() == xpt.len(),
        0 <= j < xpt.len(),
        ximproved || j != kopt,
    ensures
        ({
            let center = if ximproved {
                plus(xpt[kopt], d)
            } else {
                xpt[kopt]
            };
            let far = |k: int| distance_sq(xpt[k], center);
            let product = |k: int| drop_weight(far(k), rho) * den[k];
            match point_to_drop(kopt, ximproved, d, rho, xpt, den) {
                Some(k) => {
                    &&& product(j) > one() || (ximproved && product(j) > zero()) ==> product(j)
                        <= product(k)
                    &&& !(product(k) > one() || (ximproved && product(k) > zero())) ==> ximproved
                        && !(far(j) > far(k))
                },
                None => !ximproved && !(product(j) > one()),
            }
        }),
{
    let distsq = distances_sq(xpt, drop_center(kopt, ximproved, d, xpt));
    let score = drop_scores(kopt, ximproved, distsq, den, rho);
    reveal(below);
    reveal(at_most);
    assert(!minus_one().nan());
    assert forall|i: int| 0 <= i < score.len() implies !(#[trigger] score[i]).nan() by {}
    lemma_first_in_range(score, score.len());
    lemma_first_in_range(distsq, distsq.len());
    lemma_first_max_largest(score, score.len(), j);
    lemma_first_max_not_above(distsq, distsq.len(), j);
    let k = first_max(score, score.len());
    assert(!(minus_one() > one()) && !(minus_one() > zero()));
    if any_above(score, one()) {
        let i = choose|i: int| 0 <= i < score.len() && #[trigger] score[i] > one();
        lemma_first_max_largest(score, score.len(), i);
    }
    if any_above(score, zero()) {
        let i = choose|i: int| 0 <= i < score.len() && #[trigger] score[i] > zero();
        lemma_first_max_largest(score, score.len(), i);
    }
    assert(score[j] == score[j]);
}

/// No entry is above the one that the scan for the largest finds, unless that scan meets NaN at the
/// start.
pub(crate) proof fn lemma_first_max_not_above(x: Seq<F64>, k: nat, j: int)
    requires
        k <= x.len(),
        0 <= j < k,
    ensures
        !(x[j] > x[first_max(x, k)]),
    decreases k,
{
    reveal(below);
    lemma_first_in_range(x, k);
    if k > 1 {
        lemma_first_in_range(x, (k - 1) as nat);
        if j < k - 1 {
            lemma_first_max_not_above(x, (k - 1) as nat, j);
        }
    }
}

/// The step on a line that is taken has the largest predicted denominator among the steps that are
/// tried: no line and none of its three steps promises more.
pub proof fn lemma_line_is_best(g: Improvement, k: int, i: int)
    requires
        0 <= k < g.xpt.len(),
        0 <= i < 3,
    ensures
        ({
            let isq = best_step_number(g);
            let ksq = best_line(g, isq);
            let promise = |k: int, i: int|
                prediction(
                    line_step(lines_of(g)[k], i),
                    g.slopes()[k],
                    g.distsq()[k],
                    g.pqlag()[g.knew],
                    k == g.knew,
                );
            &&& 0 <= isq < 3
            &&& 0 <= ksq < g.xpt.len()
            &&& promise(k, i) <= promise(ksq, isq)
        }),
{
    let best = seq![best_prediction(g, 0), best_prediction(g, 1), best_prediction(g, 2)];
    let isq = best_step_number(g);
    lemma_first_in_range(best, 3);
    assert forall|s: int, l: int| 0 <= l < g.xpt.len() implies !(
    #[trigger] predictions(g, s)[l]).nan() by {}
    lemma_first_in_range(predictions(g, 0), g.xpt.len());
    lemma_first_in_range(predictions(g, 1), g.xpt.len());
    lemma_first_in_range(predictions(g, 2), g.xpt.len());
    assert(!best[0].nan() && !best[1].nan() && !best[2].nan());
    assert forall|l: int| 0 <= l < 3 implies !(#[trigger] best[l]).nan() by {}
    lemma_first_max_largest(best, 3, i);
    lemma_first_max_largest(predictions(g, i), g.xpt.len(), k);
    assert(best[i] == best_prediction(g, i));
    assert(best[isq] == best_prediction(g, isq));
    lemma_order_transitive(
        predictions(g, i)[k],
        best_prediction(g, i),
        best_prediction(g, isq),
    );
}

} // verus!
