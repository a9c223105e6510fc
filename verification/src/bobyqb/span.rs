//! The extent of the interpolation set: its points stay between finite bounds.
//!
//! When the base point moves, the bounds and the points move, each with a rounding of its own.
//! The distance between the bounds grows by one unit in the last place of the largest numbers
//! at most, so that it takes a very long run until anything could overflow.
use vstd::arithmetic::power2::lemma_pow2_pos;
use vstd::arithmetic::power2::lemma_pow2_unfold;
use vstd::arithmetic::power2::pow2;
use vstd::prelude::*;

use crate::bobyqb::course::alternative_tried;
use crate::bobyqb::course::asked;
use crate::bobyqb::course::base_moved;
use crate::bobyqb::course::begun;
use crate::bobyqb::course::carried_over;
use crate::bobyqb::course::farthest;
use crate::bobyqb::course::filled;
use crate::bobyqb::course::half_filled;
use crate::bobyqb::course::improved;
use crate::bobyqb::course::improvement_damaged;
use crate::bobyqb::course::improvement_of;
use crate::bobyqb::course::improvement_tried;
use crate::bobyqb::course::improving_step;
use crate::bobyqb::course::increment;
use crate::bobyqb::course::iterated;
use crate::bobyqb::course::judged;
use crate::bobyqb::course::laid_out;
use crate::bobyqb::course::point_at;
use crate::bobyqb::course::point_replaced;
use crate::bobyqb::course::rebased;
use crate::bobyqb::course::refilled;
use crate::bobyqb::course::rescued;
use crate::bobyqb::course::set_filled;
use crate::bobyqb::course::settled_down;
use crate::bobyqb::course::sharpened;
use crate::bobyqb::course::shortened;
use crate::bobyqb::course::spread;
use crate::bobyqb::course::step_denominators;
use crate::bobyqb::course::step_fails;
use crate::bobyqb::course::stepped;
use crate::bobyqb::course::trial;
use crate::bobyqb::course::trial_damaged;
use crate::bobyqb::course::trial_placed;
use crate::bobyqb::course::tried;
use crate::bobyqb::course::value_from;
use crate::bobyqb::course::wants_geometry;
use crate::bobyqb::course::wants_reduction;
use crate::bobyqb::course::Asked;
use crate::bobyqb::course::Filling;
use crate::bobyqb::course::Oracle;
use crate::bobyqb::course::Run;
use crate::bobyqb::course::Task;
use crate::bobyqb::laws::in_order;
use crate::bobyqb::laws::lemma_evaluated;
use crate::bobyqb::laws::lemma_improved;
use crate::bobyqb::laws::lemma_point_inside;
use crate::bobyqb::laws::lemma_prepared;
use crate::bobyqb::laws::lemma_rescued;
use crate::bobyqb::laws::lemma_trial;
use crate::bobyqb::laws::posed;
use crate::bobyqb::laws::set_sized;
use crate::bobyqb::reduced_rho;
use crate::consts::boundmax;
use crate::consts::half;
use crate::consts::neg_boundmax;
use crate::consts::sixteen;
use crate::consts::tenth;
use crate::consts::two;
use crate::consts::zero;
use crate::consts::INFO_DFT;
use crate::float::arith::lemma_fields;
use crate::float::arith::lemma_product_real;
use crate::float::arith::lemma_quotient_real;
use crate::float::arith::lemma_root_real;
use crate::float::arith::lemma_root_sign;
use crate::float::arith::lemma_self_difference;
use crate::float::arith::lemma_sign_stays;
use crate::float::arith::negation_of;
use crate::float::arith::product_of;
use crate::float::arith::root_of;
use crate::float::arith::sum_of;
use crate::float::expo;
use crate::float::near::half_ulp;
use crate::float::near::lemma_add_zero;
use crate::float::near::lemma_difference_near;
use crate::float::near::lemma_difference_order;
use crate::float::near::lemma_half_product;
use crate::float::near::lemma_negation_value;
use crate::float::near::lemma_order_value;
use crate::float::near::lemma_subtract_zero;
use crate::float::near::lemma_two_product;
use crate::float::near::top;
use crate::float::order::at_most;
use crate::float::order::below;
use crate::float::order::lemma_clamp;
use crate::float::order::max_of;
use crate::float::order::min_of;
use crate::float::sig;
use crate::float::F64;
use crate::float::INF_MAG;
use crate::geometry::lemma_drop_choice;
use crate::geometry::lemma_geometry_len;
use crate::geometry::point_to_drop;
use crate::initialize::first_move;
use crate::initialize::ordered_points;
use crate::initialize::second_move;
use crate::initialize::source_of;
use crate::initialize::start_of;
use crate::initialize::with_pairs;
use crate::linalg::lemma_norm_sign;
use crate::model::ModelView;
use crate::powalg::lemma_pairs_distinct;
use crate::powalg::pairs_of;
use crate::rescue::absorbed;
use crate::rescue::aux_steps;
use crate::rescue::lemma_refill_advances;
use crate::rescue::not_worth;
use crate::rescue::provisional_point;
use crate::rescue::recentred;
use crate::rescue::refill_sought;
use crate::rescue::refill_updated;
use crate::rescue::refill_valued;
use crate::rescue::rescue_finished;
use crate::rescue::rescue_prepared;
use crate::rescue::Rescuing;
use crate::util::exit_code;
use crate::vector::any_nan;
use crate::vector::lemma_dot_sign;
use crate::vector::lemma_first_in_range;
use crate::vector::minus;
use crate::vector::plus;

verus! {

/// The bounds on a coordinate are finite, on different sides of zero and at most `w` smallest
/// units apart.
pub open spec fn spans(l: F64, u: F64, w: int) -> bool {
    &&& l.finite()
    &&& u.finite()
    &&& l <= zero()
    &&& zero() <= u
    &&& u.value() - l.value() <= w
}

/// The points lie between the bounds, which are finite, on different sides of the base point and
/// at most `w` smallest units apart.
pub open spec fn contained(m: ModelView, w: int) -> bool {
    &&& forall|i: int| 0 <= i < m.sl.len() ==> spans(#[trigger] m.sl[i], m.su[i], w)
    &&& forall|k: int, i: int|
        0 <= k < m.xpt.len() && 0 <= i < m.sl.len() ==> (#[trigger] m.xpt[k][i]).within(
            m.sl[i],
            m.su[i],
        )
}

/// A number between finite bounds is finite.
proof fn lemma_within_finite(p: F64, l: F64, u: F64)
    requires
        l.finite(),
        u.finite(),
        p.within(l, u),
    ensures
        p.finite(),
        l.value() <= p.value() <= u.value(),
{
    reveal(at_most);
    lemma_order_value(l, p);
    lemma_order_value(p, u);
}

/// The bounds and a point, moved by a number between the bounds.
proof fn lemma_coordinate_moved(l: F64, u: F64, x: F64, p: F64, w: int)
    requires
        spans(l, u, w),
        w <= top(),
        x.within(l, u),
        p.within(l, u),
    ensures
        ({
            let l1 = min_of(l - x, zero());
            let u1 = max_of(u - x, zero());
            &&& spans(l1, u1, w + 2 * half_ulp())
            &&& (p - x).within(l1, u1)
            &&& (p - x).finite()
            &&& x.zero() ==> spans(l1, u1, w)
        }),
{
    lemma_within_finite(x, l, u);
    lemma_within_finite(p, l, u);
    lemma_order_value(l, zero());
    lemma_order_value(zero(), u);
    lemma_difference_near(l, x);
    lemma_difference_near(u, x);
    lemma_difference_near(p, x);
    lemma_difference_order(l, p, x);
    lemma_difference_order(p, u, x);
    lemma_order_value(l, x);
    lemma_order_value(x, x);
    lemma_self_difference(x);
    lemma_difference_order(l, x, x);
    lemma_difference_order(x, u, x);
    reveal(at_most);
    reveal(below);
    reveal(min_of);
    reveal(max_of);
    let l1 = min_of(l - x, zero());
    let u1 = max_of(u - x, zero());
    lemma_order_value(l - x, zero());
    lemma_order_value(zero(), u - x);
    assert(zero().value() == 0) by {
        lemma_fields(0);
    }
    if x.zero() {
        lemma_subtract_zero(l, x);
        lemma_subtract_zero(u, x);
    }
}

/// The base point is the best one.
pub open spec fn centred(m: ModelView) -> bool {
    forall|i: int| 0 <= i < m.sl.len() ==> (#[trigger] m.xopt()[i]).zero()
}

/// Wider bounds contain the set, too.
pub(crate) proof fn lemma_contained_wider(m: ModelView, v: int, w: int)
    requires
        contained(m, v),
        v <= w,
    ensures
        contained(m, w),
{
    assert forall|i: int| 0 <= i < m.sl.len() implies spans(#[trigger] m.sl[i], m.su[i], w) by {
        assert(spans(m.sl[i], m.su[i], v));
    }
}

/// A set is contained as another one is that has its bounds and its points.
pub(crate) proof fn lemma_contained_same(a: ModelView, b: ModelView, w: int)
    requires
        contained(a, w),
        b.sl == a.sl,
        b.su == a.su,
        b.xpt == a.xpt,
    ensures
        contained(b, w),
{
}

/// Moving the base point to the best point keeps the set contained; the bounds stay as far
/// apart as they are where the base point is the best one.
pub(crate) proof fn lemma_moved_contained(
    m: ModelView,
    m1: ModelView,
    n: nat,
    npt: nat,
    w: int,
)
    requires
        set_sized(m, n, npt),
        contained(m, w),
        w <= top(),
        m1.sl == Seq::new(n, |i: int| min_of(m.sl[i] - m.xopt()[i], zero())),
        m1.su == Seq::new(n, |i: int| max_of(m.su[i] - m.xopt()[i], zero())),
        m1.xpt == recentred(m.xpt, m.kopt as int),
        m1.kopt == m.kopt,
    ensures
        contained(m1, w + 2 * half_ulp()),
        centred(m) ==> contained(m1, w),
        centred(m1),
{
    let x = m.xopt();
    assert(x.len() == n);
    assert forall|i: int| 0 <= i < m1.sl.len() implies spans(
        #[trigger] m1.sl[i],
        m1.su[i],
        w + 2 * half_ulp(),
    ) by {
        assert(m.xpt[m.kopt as int][i].within(m.sl[i], m.su[i]));
        assert(spans(m.sl[i], m.su[i], w));
        lemma_coordinate_moved(m.sl[i], m.su[i], x[i], x[i], w);
    }
    assert forall|k: int, i: int|
        0 <= k < m1.xpt.len() && 0 <= i < m1.sl.len() implies (#[trigger] m1.xpt[k][i]).within(
        m1.sl[i],
        m1.su[i],
    ) by {
        assert(m.xpt[m.kopt as int][i].within(m.sl[i], m.su[i]));
        assert(m.xpt[k][i].within(m.sl[i], m.su[i]));
        assert(spans(m.sl[i], m.su[i], w));
        assert(m.xpt[k].len() == n);
        lemma_coordinate_moved(m.sl[i], m.su[i], x[i], m.xpt[k][i], w);
    }
    assert forall|i: int| 0 <= i < m1.sl.len() implies (#[trigger] m1.xopt()[i]).zero() by {
        assert(x[i].within(m.sl[i], m.su[i])) by {
            assert(m.xpt[m.kopt as int][i].within(m.sl[i], m.su[i]));
        }
        assert(spans(m.sl[i], m.su[i], w));
        lemma_within_finite(x[i], m.sl[i], m.su[i]);
        lemma_self_difference(x[i]);
    }
    if centred(m) {
        assert forall|i: int| 0 <= i < m1.sl.len() implies spans(
            #[trigger] m1.sl[i],
            m1.su[i],
            w,
        ) by {
            assert(m.xpt[m.kopt as int][i].within(m.sl[i], m.su[i]));
            assert(spans(m.sl[i], m.su[i], w));
            assert(m.xopt()[i].zero());
            lemma_coordinate_moved(m.sl[i], m.su[i], x[i], x[i], w);
        }
    }
}

/// The steps to the provisional points on a coordinate direction lie between the bounds.
proof fn lemma_aux_within(delta: F64, l: F64, u: F64, w: int)
    requires
        !delta.sign(),
        spans(l, u, w),
    ensures
        aux_steps(delta, l, u).0.within(l, u),
        aux_steps(delta, l, u).1.within(l, u),
{
    reveal(at_most);
    reveal(below);
    reveal(min_of);
    reveal(max_of);
    lemma_negation_value(delta);
    let p = min_of(delta, u);
    let q = max_of(-delta, l);
    assert(p.within(l, u));
    assert(q.within(l, u));
    let a = if p + q < zero() {
        q
    } else {
        p
    };
    lemma_half_product(a);
}

/// The set is contained, and so are the provisional points.
spec fn aimed(r: Rescuing, n: nat, npt: nat, w: int) -> bool {
    &&& r.m.sl.len() == n
    &&& r.m.xpt.len() == npt
    &&& r.ids.len() == npt
    &&& r.a1.len() == n
    &&& r.a2.len() == n
    &&& contained(r.m, w)
    &&& forall|i: int|
        0 <= i < n ==> (#[trigger] r.a1[i]).within(r.m.sl[i], r.m.su[i]) && r.a2[i].within(
            r.m.sl[i],
            r.m.su[i],
        )
}

/// A point of the set becomes a provisional one.
proof fn lemma_provisional(r: Rescuing, m: ModelView, id: (usize, usize), n: nat, npt: nat, w: int)
    requires
        aimed(r, n, npt, w),
        r.kpt < npt,
        m.sl == r.m.sl,
        m.su == r.m.su,
        m.xpt == r.m.xpt.update(r.kpt as int, provisional_point(id, r.a1, r.a2)),
    ensures
        contained(m, w),
{
    reveal(at_most);
    assert forall|k: int, i: int| 0 <= k < npt && 0 <= i < n implies (
    #[trigger] m.xpt[k][i]).within(m.sl[i], m.su[i]) by {
        assert(spans(m.sl[i], m.su[i], w)) by {
            assert(spans(r.m.sl[i], r.m.su[i], w));
        }
        if k == r.kpt {
            assert(r.a1[i].within(r.m.sl[i], r.m.su[i]));
        } else {
            assert(r.m.xpt[k][i].within(m.sl[i], m.su[i]));
        }
    }
}

/// The search for the next provisional point keeps the set contained.
proof fn lemma_sought_contained(r: Rescuing, delta: F64, n: nat, npt: nat, w: int)
    requires
        aimed(r, n, npt, w),
    ensures
        aimed(refill_sought(r, delta), n, npt, w),
    decreases r.ids.len() - r.kpt,
{
    if !(r.kpt >= r.ids.len() || r.kpt >= usize::MAX) {
        let k = r.kpt as int;
        let next = (r.kpt + 1) as usize;
        match r.ids[k] {
            None => {
                let r1 = Rescuing { kpt: next, ..r };
                assert(aimed(r1, n, npt, w));
                lemma_sought_contained(r1, delta, n, npt, w);
            },
            Some(id) => {
                let m = absorbed(r.m, k);
                let x = provisional_point(id, r.a1, r.a2);
                if not_worth(x, m.xpt[k], delta) {
                    let r1 = Rescuing { m, kpt: next, ..r };
                    lemma_contained_same(r.m, m, w);
                    assert(aimed(r1, n, npt, w));
                    lemma_sought_contained(r1, delta, n, npt, w);
                } else {
                    let m1 = ModelView { xpt: m.xpt.update(k, x), ..m };
                    lemma_provisional(r, m1, id, n, npt, w);
                    assert(aimed(Rescuing { m: m1, ..r }, n, npt, w));
                }
            },
        }
    }
}

/// The evaluation of provisional points keeps the set contained.
proof fn lemma_refilled_contained(
    t: Task,
    r: Rescuing,
    delta: F64,
    log: Seq<Asked>,
    o: Oracle,
    n: nat,
    npt: nat,
    w: int,
)
    requires
        aimed(r, n, npt, w),
    ensures
        contained(refilled(t, r, delta, log, o).0, w),
    decreases r.ids.len() - r.kpt,
{
    let r1 = refill_sought(r, delta);
    lemma_sought_contained(r, delta, n, npt, w);
    lemma_refill_advances(r, delta);
    if r1.kpt >= r1.ids.len() || r1.kpt >= usize::MAX {
        lemma_contained_same(r1.m, rescue_finished(r1), w);
    } else {
        let x = point_at(t, r1.m, r1.m.xpt[r1.kpt as int]);
        let f = value_from(log, x, o);
        let log1 = asked(log, x, o);
        let r2 = refill_valued(r1, f);
        let info = exit_code(t.set.maxfun, log1.len() as usize, f, t.set.ftarget, x);
        lemma_contained_same(r1.m, r2.m, w);
        if info != INFO_DFT {
            lemma_contained_same(r2.m, rescue_finished(r2), w);
        } else {
            let r3 = refill_updated(r2, f);
            lemma_contained_same(r2.m, r3.m, w);
            assert(aimed(r3, n, npt, w));
            lemma_refilled_contained(t, r3, delta, log1, o, n, npt, w);
        }
    }
}

/// A rescue keeps the set contained.
pub(crate) proof fn lemma_rescued_contained(t: Task, npt: nat, s: Run, o: Oracle, w: int)
    requires
        set_sized(s.m, t.xl.len(), npt),
        contained(s.m, w),
        w <= top(),
        !s.delta.sign(),
    ensures
        contained(rescued(t, s, o).m, w + 2 * half_ulp()),
        rescued(t, s, o).delta == s.delta,
        rescued(t, s, o).rho == s.rho,
{
    reveal(rescued);
    let n = t.xl.len();
    let v = w + 2 * half_ulp();
    if s.log.len() >= t.set.maxfun {
        lemma_contained_same(s.m, rescued(t, s, o).m, w);
        lemma_contained_wider(rescued(t, s, o).m, w, v);
    } else {
        let r = rescue_prepared(s.m, s.delta, t.xl, t.xu);
        lemma_prepared(s.m, s.delta, t.xl, t.xu, n, npt);
        assert(s.m.xpt[s.m.kopt as int].len() == n);
        lemma_moved_contained(s.m, r.m, n, npt, w);
        assert forall|i: int| 0 <= i < n implies (#[trigger] r.a1[i]).within(
            r.m.sl[i],
            r.m.su[i],
        ) && r.a2[i].within(r.m.sl[i], r.m.su[i]) by {
            assert(spans(r.m.sl[i], r.m.su[i], v));
            lemma_aux_within(s.delta, r.m.sl[i], r.m.su[i], v);
        }
        lemma_refilled_contained(t, r, s.delta, s.log, o, n, npt, v);
    }
}

/// Replacing a point keeps the set contained.
proof fn lemma_replaced_contained(
    m: ModelView,
    k: usize,
    d: Seq<F64>,
    f: F64,
    moderr: F64,
    ximproved: bool,
    n: nat,
    npt: nat,
    w: int,
)
    requires
        set_sized(m, n, npt),
        d.len() == n,
        k < npt,
        contained(m, w),
    ensures
        contained(point_replaced(m, k, d, f, moderr, ximproved), w),
{
    reveal(point_replaced);
    let m1 = point_replaced(m, k, d, f, moderr, ximproved);
    assert forall|j: int, i: int| 0 <= j < npt && 0 <= i < n implies (
    #[trigger] m1.xpt[j][i]).within(m1.sl[i], m1.su[i]) by {
        assert(spans(m.sl[i], m.su[i], w));
        if j == k {
            reveal(at_most);
            lemma_clamp(m.sl[i], m.su[i], m.xopt()[i] + d[i]);
        } else {
            assert(m.xpt[j][i].within(m.sl[i], m.su[i]));
        }
    }
    assert forall|i: int| 0 <= i < m1.sl.len() implies spans(#[trigger] m1.sl[i], m1.su[i], w) by {
        assert(spans(m.sl[i], m.su[i], w));
    }
}

/// The squared distances of a contained set are numbers.
pub proof fn lemma_spread_real(m: ModelView, n: nat, npt: nat, w: int)
    requires
        set_sized(m, n, npt),
        contained(m, w),
        w <= top(),
    ensures
        !any_nan(spread(m)),
{
    let x = m.xopt();
    assert forall|k: int| 0 <= k < npt implies !(#[trigger] spread(m)[k]).nan() by {
        let z = minus(m.xpt[k], x);
        assert(m.xpt[k].len() == n);
        assert(x.len() == n);
        assert forall|i: int| 0 <= i < z.len() implies !(#[trigger] z[i]).nan() by {
            assert(m.xpt[k][i].within(m.sl[i], m.su[i]));
            assert(m.xpt[m.kopt as int][i].within(m.sl[i], m.su[i]));
            assert(spans(m.sl[i], m.su[i], w));
            lemma_coordinate_moved(m.sl[i], m.su[i], x[i], m.xpt[k][i], w);
        }
        lemma_dot_sign(z, z.len());
    }
}

/// The set of a run is contained, the resolution is a number, and the resolution and the radius
/// have clear sign bits.
pub open spec fn bounded(s: Run, w: int) -> bool {
    &&& contained(s.m, w)
    &&& !s.rho.nan()
    &&& !s.rho.sign()
    &&& !s.delta.sign()
}

/// The factors by which the radius changes and the resolutions have clear sign bits, and the
/// final resolution is a number other than zero.
pub open spec fn radii_positive(t: Task) -> bool {
    &&& !t.set.gamma1.sign()
    &&& !t.set.gamma2.sign()
    &&& !t.set.rhobeg.sign()
    &&& !t.set.rhoend.sign()
    &&& t.set.rhoend.finite()
    &&& !t.set.rhoend.zero()
}

/// The reduced resolution is a number.
proof fn lemma_reduced_real(rho: F64, rhoend: F64)
    requires
        !rho.nan(),
        rhoend.finite(),
        !rhoend.zero(),
    ensures
        !reduced_rho(rho, rhoend).nan(),
{
    lemma_product_real(tenth(), rho);
    lemma_quotient_real(rho, rhoend);
    let q = rho / rhoend;
    if !(q <= sixteen()) {
        assert(q > zero()) by {
            reveal(below);
            reveal(at_most);
        }
        lemma_root_real(q);
        lemma_product_real(rhoend, root_of(q));
    }
}

/// Taking the trial point into the set keeps the run bounded.
proof fn lemma_placed_bounded(t: Task, npt: nat, s: Run, moderr: F64, w: int)
    requires
        in_order(t, npt, s),
        bounded(s, w),
    ensures
        bounded(trial_placed(t, s, moderr), w),
{
    reveal(trial_placed);
    reveal(alternative_tried);
    let m = s.m;
    let ximproved = s.f < m.fopt();
    let den = step_denominators(m, s.d);
    lemma_drop_choice(m.kopt as int, ximproved, s.d, s.rho, m.xpt, den);
    match point_to_drop(m.kopt as int, ximproved, s.d, s.rho, m.xpt, den) {
        None => {},
        Some(k) => {
            let n = t.xl.len();
            lemma_replaced_contained(m, k as usize, s.d, s.f, moderr, ximproved, n, npt, w);
            let m1 = point_replaced(m, k as usize, s.d, s.f, moderr, ximproved);
            lemma_contained_same(m1, alternative_tried(m1, s.ratio, s.itest).0, w);
        },
    }
}

/// A new radius has a clear sign bit.
proof fn lemma_radius_sign(t: Task, s: Run, qred: F64)
    requires
        radii_positive(t),
        !s.delta.sign(),
        !s.dnorm.sign(),
        !s.rho.sign(),
    ensures
        !judged(t, s, qred).delta.sign(),
{
    reveal(judged);
    reveal(min_of);
    reveal(max_of);
    lemma_sign_stays(t.set.gamma1, s.delta);
    lemma_sign_stays(t.set.gamma2, s.dnorm);
}

/// The trust-region part keeps the run bounded.
proof fn lemma_trial_bounded(t: Task, npt: nat, s: Run, o: Oracle, w: int)
    requires
        posed(t, npt),
        radii_positive(t),
        in_order(t, npt, s),
        !s.ended,
        bounded(s, w),
        w <= top(),
    ensures
        bounded(trial(t, s, o), w + 2 * half_ulp()),
{
    reveal(trial);
    reveal(stepped);
    reveal(shortened);
    reveal(tried);
    reveal(carried_over);
    let n = t.xl.len();
    let v = w + 2 * half_ulp();
    assert(s.m.xpt[s.m.kopt as int].len() == n);
    lemma_contained_wider(s.m, w, v);
    let s1 = stepped(s);
    assert(!s1.dnorm.sign()) by {
        lemma_norm_sign(s1.d);
        reveal(min_of);
    }
    lemma_sign_stays(tenth(), s.delta);
    if !(s1.shortd || step_fails(s1)) {
        let qred = -increment(s1.m, s1.d);
        let step = plus(s1.m.xopt(), s1.d);
        let x = point_at(t, s1.m, step);
        lemma_point_inside(t, s1.m, step);
        let e = s1.evaluated(x, o);
        let info = exit_code(t.set.maxfun, e.log.len() as usize, e.f, t.set.ftarget, x);
        lemma_evaluated(t, npt, s1, x, o, info);
        let s2 = Run { rescued: false, ..e };
        if info == INFO_DFT {
            lemma_radius_sign(t, s2, qred);
            let s3 = judged(t, s2, qred);
            assert(s3.m == s.m && s3.rho == s.rho && s3.f == e.f && s3.d == e.d && !s3.ended
                && in_order(t, npt, s3)) by {
                reveal(judged);
            }
            if s3.f < s3.m.fopt() && trial_damaged(s3.m, s3.d) {
                lemma_rescued(t, npt, s3, o);
                lemma_rescued_contained(t, npt, s3, o, w);
                let s4 = rescued(t, s3, o);
                if !s4.ended {
                    let s5 = carried_over(s4);
                    assert(in_order(t, npt, s5));
                    let moderr = s5.f - s5.m.fopt() - increment(s5.m, s5.d);
                    lemma_placed_bounded(t, npt, s5, moderr, v);
                }
            } else {
                lemma_placed_bounded(t, npt, s3, s3.f - s3.m.fopt() + qred, v);
            }
        }
    }
}

/// The geometry part keeps the run bounded.
pub(crate) proof fn lemma_improved_bounded(t: Task, npt: nat, s: Run, o: Oracle, w: int)
    requires
        posed(t, npt),
        in_order(t, npt, s),
        !s.ended,
        bounded(s, w),
        w <= top(),
    ensures
        bounded(improved(t, s, o), w + 2 * half_ulp()),
{
    reveal(improved);
    reveal(improvement_tried);
    let n = t.xl.len();
    let v = w + 2 * half_ulp();
    let k = farthest(s.m);
    lemma_first_in_range(spread(s.m), npt);
    lemma_contained_wider(s.m, w, v);
    assert(s.m.xpt[s.m.kopt as int].len() == n);
    assert(s.m.xpt[k].len() == n);
    let s1 = Run { d: improving_step(s), ..s };
    lemma_geometry_len(improvement_of(s));
    if improvement_damaged(s1.m, s1.d, k) {
        if !s1.rescued {
            lemma_rescued_contained(t, npt, s1, o, w);
        }
    } else {
        let x = point_at(t, s1.m, plus(s1.m.xopt(), s1.d));
        let e = s1.evaluated(x, o);
        let moderr = e.f - e.m.fopt() - increment(e.m, e.d);
        lemma_replaced_contained(
            e.m,
            k as usize,
            e.d,
            e.f,
            moderr,
            e.f < e.m.fopt(),
            n,
            npt,
            v,
        );
    }
}

/// A smaller resolution keeps the run bounded.
pub(crate) proof fn lemma_sharpened_bounded(t: Task, s: Run, w: int)
    requires
        radii_positive(t),
        bounded(s, w),
    ensures
        bounded(sharpened(t, s), w),
        sharpened(t, s).m == s.m,
        sharpened(t, s).rescued == s.rescued,
{
    lemma_reduced_real(s.rho, t.set.rhoend);
    reveal(sharpened);
    reveal(max_of);
    lemma_sign_stays(half(), s.rho);
    lemma_sign_stays(tenth(), s.rho);
    lemma_sign_stays(s.rho, t.set.rhoend);
    lemma_root_sign(s.rho / t.set.rhoend);
    lemma_sign_stays(root_of(s.rho / t.set.rhoend), t.set.rhoend);
}

/// An iteration keeps the run bounded.
pub proof fn lemma_iterated_bounded(t: Task, npt: nat, s: Run, o: Oracle, w: int)
    requires
        posed(t, npt),
        radii_positive(t),
        in_order(t, npt, s),
        !s.ended,
        bounded(s, w),
        w + 4 * half_ulp() <= top(),
    ensures
        bounded(trial(t, s, o), w + 2 * half_ulp()),
        bounded(iterated(t, s, o), w + 6 * half_ulp()),
{
    reveal(iterated);
    reveal(settled_down);
    reveal(rebased);
    let n = t.xl.len();
    let w1 = w + 2 * half_ulp();
    let w2 = w + 4 * half_ulp();
    let w3 = w + 6 * half_ulp();
    lemma_trial(t, npt, s, o);
    lemma_trial_bounded(t, npt, s, o, w);
    let s1 = trial(t, s, o);
    lemma_contained_wider(s1.m, w1, w3);
    if !s1.ended {
        let failed = step_fails(stepped(s));
        lemma_improved(t, npt, s1, o);
        lemma_improved_bounded(t, npt, s1, o, w1);
        lemma_contained_wider(s1.m, w1, w2);
        let s2 = if wants_geometry(t, s1, failed) {
            improved(t, s1, o)
        } else {
            s1
        };
        lemma_contained_wider(s2.m, w2, w3);
        if !s2.ended {
            let s3 = if wants_reduction(s1, failed) {
                sharpened(t, s2)
            } else {
                s2
            };
            lemma_sharpened_bounded(t, s2, w2);
            if !s3.ended {
                assert(s3.m.xpt[s3.m.kopt as int].len() == n);
                let m = base_moved(t, s3.m);
                assert(contained(m, w3)) by {
                    reveal(base_moved);
                    lemma_moved_contained(s3.m, m, n, npt, w2);
                }
            }
        }
    }
}

/// The largest bound, in smallest units.
pub open spec fn reach() -> int {
    boundmax().value()
}

/// The distance between the bounds at the start, at most.
pub open spec fn start_width() -> int {
    3 * reach() + 2 * half_ulp()
}

/// The bounds lie in the range of usable bounds, with room for the initial set between them.
pub open spec fn roomy(t: Task) -> bool {
    &&& t.set.rhobeg.finite()
    &&& forall|i: int| 0 <= i < t.xl.len() ==> leaves_room(#[trigger] t.xl[i], t.xu[i], t.set.rhobeg)
}

/// The bounds on a coordinate are usable and in order, with room for the initial set.
pub open spec fn leaves_room(l: F64, u: F64, rhobeg: F64) -> bool {
    &&& neg_boundmax() <= l
    &&& l <= u
    &&& u <= boundmax()
    &&& two() * rhobeg <= u - l
}

/// The sizes of the largest numbers.
pub(crate) proof fn lemma_reach()
    ensures
        top() == 4 * reach(),
        2 * reach() == 0x1f_ffff_ffff_ffff * half_ulp(),
        neg_boundmax().value() == -reach(),
        half_ulp() > 0,
{
    lemma_pow2_unfold(2045);
    lemma_pow2_unfold(2044);
    lemma_pow2_pos(2043);
    let p = pow2(2043);
    let s: nat = 0x1f_ffff_ffff_ffff;
    assert(boundmax().mag() == 0x7fcf_ffff_ffff_ffff);
    assert(sig(boundmax().mag()) == s);
    assert(expo(boundmax().mag()) == 2043);
    assert(sig((INF_MAG - 1) as nat) == s);
    assert(expo((INF_MAG - 1) as nat) == 2045);
    assert(s * (4 * p) == 4 * (s * p)) by (nonlinear_arith);
    assert(2 * (s * p) == s * (2 * p)) by (nonlinear_arith);
}

/// The two differences of two finite numbers are opposite.
proof fn lemma_difference_opposite(a: F64, b: F64)
    requires
        a.finite(),
        b.finite(),
    ensures
        (a - b).key() == -(b - a).key(),
        !(a - b).nan(),
{
    reveal(sum_of);
    lemma_negation_value(a);
    lemma_negation_value(b);
    assert((a.value() - b.value()) == -(b.value() - a.value()));
}

/// The product of minus two with a positive number is not above zero.
proof fn lemma_minus_two(a: F64)
    requires
        a.finite(),
        !a.sign(),
    ensures
        !((-two()) * a).nan(),
        ((-two()) * a).key() <= 0,
{
    reveal(product_of);
    lemma_negation_value(two());
}

/// What room for the initial set means for values.
pub(crate) proof fn lemma_room(l: F64, u: F64, rhobeg: F64)
    requires
        rhobeg.finite(),
        !rhobeg.sign(),
        leaves_room(l, u, rhobeg),
    ensures
        l.finite(),
        u.finite(),
        -reach() <= l.value() <= u.value() <= reach(),
        (u - l).finite(),
        (l - u).finite(),
        (u - l).value() <= 2 * reach() + half_ulp(),
        (l - u).value() >= -2 * reach() - half_ulp(),
        rhobeg <= u - l,
        l - u <= -rhobeg,
        l - u <= (-two()) * rhobeg,
        0 <= rhobeg.value() <= reach() + half_ulp(),
        l - u <= zero(),
        zero() <= u - l,
{
    lemma_reach();
    reveal(at_most);
    lemma_order_value(neg_boundmax(), l);
    lemma_order_value(l, u);
    lemma_order_value(u, boundmax());
    lemma_difference_near(u, l);
    lemma_difference_near(l, u);
    lemma_two_product(rhobeg);
    lemma_order_value(two() * rhobeg, u - l);
    lemma_difference_opposite(l, u);
    lemma_negation_value(rhobeg);
    reveal(product_of);
    reveal(negation_of);
    assert(((-two()) * rhobeg).key() == -(two() * rhobeg).key());
    lemma_order_value(zero(), rhobeg);
    lemma_fields(0);
}

/// A coordinate of the base point with its bounds, and the points of the initial set on it.
proof fn lemma_start_spans(x0: F64, xl: F64, xu: F64, rhobeg: F64)
    requires
        rhobeg.finite(),
        !rhobeg.sign(),
        leaves_room(xl, xu, rhobeg),
    ensures
        ({
            let s = start_of(x0, xl, xu, rhobeg);
            &&& spans(s.sl, s.su, start_width())
            &&& first_move(rhobeg, s.su).within(s.sl, s.su)
            &&& second_move(rhobeg, s.sl, s.su).within(s.sl, s.su)
        }),
{
    lemma_reach();
    lemma_room(xl, xu, rhobeg);
    lemma_two_product(rhobeg);
    lemma_negation_value(rhobeg);
    lemma_fields(0);
    let s = start_of(x0, xl, xu, rhobeg);
    reveal(min_of);
    reveal(max_of);
    reveal(below);
    reveal(at_most);
    assert(zero().value() == 0);
    if xl - x0 < zero() && xu - x0 > zero() {
        assert(x0.finite() && xl.value() < x0.value() < xu.value()) by {
            reveal(sum_of);
            lemma_negation_value(x0);
        }
        lemma_difference_near(xl, x0);
        lemma_difference_near(xu, x0);
        assert(s.sl == min_of(xl - x0, -rhobeg));
        assert(s.su == max_of(xu - x0, rhobeg));
        assert(spans(s.sl, s.su, start_width()));
    } else if !(xl - x0 < zero()) && xu - xl > zero() {
        assert(s.sl == zero());
        assert(s.su == max_of(xu - xl, rhobeg));
        assert(spans(s.sl, s.su, start_width()));
        assert(first_move(rhobeg, s.su).within(s.sl, s.su));
        assert(second_move(rhobeg, s.sl, s.su).within(s.sl, s.su));
    } else {
        assert(s.sl == xl - xu);
        assert(s.su == zero());
        assert(spans(s.sl, s.su, start_width()));
        assert(first_move(rhobeg, s.su).within(s.sl, s.su));
        lemma_minus_two(rhobeg);
        assert(second_move(rhobeg, s.sl, s.su).within(s.sl, s.su));
    }
}

/// Adding zero keeps a number between bounds.
proof fn lemma_add_zero_within(v: F64, l: F64, u: F64)
    requires
        l.finite(),
        u.finite(),
        v.within(l, u),
    ensures
        (v + zero()).within(l, u),
        (zero() + v).within(l, u),
{
    lemma_within_finite(v, l, u);
    lemma_add_zero(v);
    lemma_order_value(l, v + zero());
    lemma_order_value(v + zero(), u);
    lemma_order_value(l, zero() + v);
    lemma_order_value(zero() + v, u);
}

/// The points on the coordinate directions are contained.
proof fn lemma_axis_contained(t: Task, npt: nat, x0: Seq<F64>)
    requires
        roomy(t),
        radii_positive(t),
    ensures
        contained(laid_out(t, npt, x0), start_width()),
{
    let m = laid_out(t, npt, x0);
    let r = t.set.rhobeg;
    assert forall|i: int| 0 <= i < m.sl.len() implies spans(
        #[trigger] m.sl[i],
        m.su[i],
        start_width(),
    ) by {
        assert(leaves_room(t.xl[i], t.xu[i], r));
        lemma_start_spans(x0[i], t.xl[i], t.xu[i], r);
    }
    assert forall|k: int, i: int|
        0 <= k < m.xpt.len() && 0 <= i < m.sl.len() implies (#[trigger] m.xpt[k][i]).within(
        m.sl[i],
        m.su[i],
    ) by {
        assert(leaves_room(t.xl[i], t.xu[i], r));
        lemma_start_spans(x0[i], t.xl[i], t.xu[i], r);
    }
}

/// The points of the initial set with those for pairs of variables are contained.
proof fn lemma_pairs_contained(
    m: ModelView,
    m1: ModelView,
    n: nat,
    npt: nat,
    fval: Seq<F64>,
    w: int,
)
    requires
        0 < n <= usize::MAX,
        n + 2 <= npt,
        2 * npt <= (n + 1) * (n + 2),
        m.sl.len() == n,
        m.xpt.len() == npt,
        contained(m, w),
        forall|k: int, i: int|
            0 <= k < npt && 0 <= i < n ==> m.xpt[k].len() == n && (k == i + 1 || k == i + 1 + n
                || #[trigger] m.xpt[k][i] == zero()),
        m1.sl == m.sl,
        m1.su == m.su,
        m1.xpt == with_pairs(n, ordered_points(n, fval, m.xpt)),
    ensures
        contained(m1, w),
{
    let p = ordered_points(n, fval, m.xpt);
    assert forall|k: int, i: int| 0 <= k < npt && 0 <= i < n implies (
    #[trigger] m1.xpt[k][i]).within(m1.sl[i], m1.su[i]) by {
        assert(spans(m.sl[i], m.su[i], w));
        if k < 2 * n + 1 {
            let j = source_of(n, fval, m.xpt, k);
            assert(0 <= j < npt);
            assert(p[k] == m.xpt[j]);
            assert(m.xpt[j][i].within(m.sl[i], m.su[i]));
        } else {
            let c = k - 2 * n - 1;
            lemma_pairs_distinct(n, npt, c, c);
            let a = pairs_of(n, npt)[c].0 as int + 1;
            let b = pairs_of(n, npt)[c].1 as int + 1;
            let ja = source_of(n, fval, m.xpt, a);
            let jb = source_of(n, fval, m.xpt, b);
            assert(p[a] == m.xpt[ja] && (ja == a || ja == a + n) && 0 <= ja < npt);
            assert(p[b] == m.xpt[jb] && (jb == b || jb == b + n) && 0 <= jb < npt);
            assert(m.xpt[ja][i].within(m.sl[i], m.su[i]));
            assert(m.xpt[jb][i].within(m.sl[i], m.su[i]));
            assert(p.len() == npt);
            assert(p[a].len() == n) by {
                assert(m.xpt[ja][0] == m.xpt[ja][0]);
            }
            assert(m1.xpt[k] == plus(p[a], p[b]));
            assert(m1.xpt[k][i] == m.xpt[ja][i] + m.xpt[jb][i]);
            lemma_add_zero_within(m.xpt[ja][i], m.sl[i], m.su[i]);
            lemma_add_zero_within(m.xpt[jb][i], m.sl[i], m.su[i]);
        }
    }
    assert forall|i: int| 0 <= i < m1.sl.len() implies spans(#[trigger] m1.sl[i], m1.su[i], w) by {
        assert(spans(m.sl[i], m.su[i], w));
    }
}

/// A run begins bounded.
pub proof fn lemma_begun_bounded(t: Task, npt: nat, x0: Seq<F64>, o: Oracle)
    requires
        0 < t.xl.len() <= usize::MAX,
        t.xl.len() + 2 <= npt,
        2 * npt <= (t.xl.len() + 1) * (t.xl.len() + 2),
        roomy(t),
        radii_positive(t),
    ensures
        bounded(begun(t, npt, x0, o), start_width()),
{
    reveal(begun);
    let n = t.xl.len();
    let m0 = laid_out(t, npt, x0);
    lemma_axis_contained(t, npt, x0);
    let (m1, i1) = half_filled(t, npt, x0, o);
    let (m2, i2) = set_filled(t, npt, x0, o);
    let limit = if npt < 2 * n + 1 {
        npt
    } else {
        2 * n + 1
    };
    let fval = filled(
        t,
        m0,
        Filling { fval: m0.fval, log: Seq::empty(), info: INFO_DFT },
        limit,
        o,
    ).fval;
    lemma_pairs_contained(m0, m1, n, npt, fval, start_width());
    lemma_contained_same(m1, begun(t, npt, x0, o).m, start_width());
}

} // verus!
