//! The best point: a run ends at a point where the objective was asked, with the value there.
//!
//! When the base point moves, the best point is exactly the new base point, so that its place in
//! the problem stays the same.  The one exception is a trial point that the set takes in after a
//! rescue: its place is computed anew, from the new base point, with other roundings.
use vstd::arithmetic::power2::lemma2_to64;
use vstd::prelude::*;

use crate::bobyqb::best::lemma_farthest;
use crate::bobyqb::course::alternative_tried;
use crate::bobyqb::course::asked;
use crate::bobyqb::course::base_moved;
use crate::bobyqb::course::begun;
use crate::bobyqb::course::carried_over;
use crate::bobyqb::course::chosen;
use crate::bobyqb::course::farthest;
use crate::bobyqb::course::filled;
use crate::bobyqb::course::half_filled;
use crate::bobyqb::course::improved;
use crate::bobyqb::course::improvement_damaged;
use crate::bobyqb::course::improvement_of;
use crate::bobyqb::course::improvement_tried;
use crate::bobyqb::course::improving_step;
use crate::bobyqb::course::increment;
use crate::bobyqb::course::iterated;
use crate::bobyqb::course::iteration_limit;
use crate::bobyqb::course::iterations;
use crate::bobyqb::course::judged;
use crate::bobyqb::course::laid_out;
use crate::bobyqb::course::last_step;
use crate::bobyqb::course::point_at;
use crate::bobyqb::course::point_replaced;
use crate::bobyqb::course::rebased;
use crate::bobyqb::course::refilled;
use crate::bobyqb::course::rescued;
use crate::bobyqb::course::set_filled;
use crate::bobyqb::course::settled_down;
use crate::bobyqb::course::sharpened;
use crate::bobyqb::course::shortened;
use crate::bobyqb::course::solved;
use crate::bobyqb::course::spread;
use crate::bobyqb::course::step_denominators;
use crate::bobyqb::course::step_fails;
use crate::bobyqb::course::stepped;
use crate::bobyqb::course::trial;
use crate::bobyqb::course::trial_damaged;
use crate::bobyqb::course::trial_placed;
use crate::bobyqb::course::tried;
use crate::bobyqb::course::value_from;
use crate::bobyqb::course::wants_geometry;
use crate::bobyqb::course::Asked;
use crate::bobyqb::course::Filling;
use crate::bobyqb::course::Oracle;
use crate::bobyqb::course::Run;
use crate::bobyqb::course::Task;
use crate::bobyqb::drift::allowance;
use crate::bobyqb::drift::lemma_allowance_room;
use crate::bobyqb::drift::lemma_begun_paid;
use crate::bobyqb::drift::lemma_iterated_paid;
use crate::bobyqb::drift::lemma_iterations_log;
use crate::bobyqb::drift::LONG_RUN;
use crate::bobyqb::laws::in_order;
use crate::bobyqb::laws::inside;
use crate::bobyqb::laws::lemma_asked;
use crate::bobyqb::laws::lemma_begun;
use crate::bobyqb::laws::lemma_evaluated;
use crate::bobyqb::laws::lemma_filled;
use crate::bobyqb::laws::lemma_found_finite;
use crate::bobyqb::laws::lemma_half_filled;
use crate::bobyqb::laws::lemma_improved;
use crate::bobyqb::laws::lemma_iterated;
use crate::bobyqb::laws::lemma_iterations;
use crate::bobyqb::laws::lemma_point_inside;
use crate::bobyqb::laws::lemma_prepared;
use crate::bobyqb::laws::lemma_rescued;
use crate::bobyqb::laws::lemma_set_filled;
use crate::bobyqb::laws::lemma_sought;
use crate::bobyqb::laws::lemma_trial;
use crate::bobyqb::laws::posed;
use crate::bobyqb::laws::set_sized;
use crate::bobyqb::laws::used;
use crate::bobyqb::laws::was_found;
use crate::bobyqb::progress::good_bounds;
use crate::bobyqb::span::bounded;
use crate::bobyqb::span::contained;
use crate::bobyqb::span::lemma_contained_wider;
use crate::bobyqb::span::lemma_improved_bounded;
use crate::bobyqb::span::lemma_iterated_bounded;
use crate::bobyqb::span::lemma_spread_real;
use crate::bobyqb::span::radii_positive;
use crate::bobyqb::span::roomy;
use crate::bobyqb::span::spans;
use crate::consts::infinity;
use crate::consts::neg_infinity;
use crate::consts::realmax;
use crate::consts::zero;
use crate::consts::INFO_DFT;
use crate::float::arith::lemma_fields;
use crate::float::arith::sum_of;
use crate::float::expo;
use crate::float::near::half_ulp;
use crate::float::near::lemma_add_zero;
use crate::float::near::lemma_difference_near;
use crate::float::near::lemma_negation_value;
use crate::float::near::lemma_order_value;
use crate::float::near::lemma_round_exact;
use crate::float::near::lemma_round_monotone;
use crate::float::near::top;
use crate::float::order::at_most;
use crate::float::order::below;
use crate::float::order::lemma_clamp;
use crate::float::order::max_of;
use crate::float::order::min_of;
use crate::float::order::same;
use crate::float::sig;
use crate::float::units;
use crate::float::F64;
use crate::geometry::lemma_drop_choice;
use crate::geometry::lemma_geometry_len;
use crate::geometry::point_to_drop;
use crate::initialize::source_of;
use crate::initialize::start_of;
use crate::model::ModelView;
use crate::rescue::absorbed;
use crate::rescue::lemma_refill_advances;
use crate::rescue::not_worth;
use crate::rescue::provisional_point;
use crate::rescue::recentred;
use crate::rescue::refill_sought;
use crate::rescue::refill_updated;
use crate::rescue::refill_valued;
use crate::rescue::rescue_finished;
use crate::rescue::rescue_prepared;
use crate::rescue::Rescuing;
use crate::util::exit_code;
use crate::util::in_box;
use crate::util::lemma_in_box_moderated;
use crate::util::lemma_moderated_value;
use crate::util::placed1;
use crate::vector::lemma_first_in_range;
use crate::vector::plus;
use crate::vector::same_point;

verus! {

/// Equal numbers have equal bits, or are zeros.
proof fn lemma_same_bits(a: F64, b: F64)
    requires
        same(a, b),
    ensures
        a == b || (a.zero() && b.zero()),
{
    reveal(at_most);
    assert(a.key() == b.key());
    if a.sign() == b.sign() {
        assert(a.bits == b.bits);
    }
}

/// Sums with equal numbers are equal.
proof fn lemma_same_sum(c: F64, a: F64, b: F64)
    requires
        c.finite(),
        same(a, b),
    ensures
        same(c + a, c + b),
{
    lemma_same_bits(a, b);
    lemma_fields(0);
    reveal(sum_of);
    reveal(at_most);
}

/// The difference of two different finite numbers is not zero.
proof fn lemma_difference_above(a: F64, b: F64)
    requires
        a.finite(),
        b.finite(),
        a < b,
    ensures
        b - a > zero(),
        a - b < zero(),
{
    lemma_order_value(a, b);
    lemma_negation_value(a);
    lemma_negation_value(b);
    reveal(sum_of);
    reveal(below);
    let n = (b.value() - a.value()) as nat;
    assert(units(1) == 1) by {
        lemma2_to64();
        assert(sig(1) == 1 && expo(1) == 0);
    }
    lemma_round_exact(1, 1);
    lemma_round_monotone(1, n, 1);
}

/// Bringing a number between bounds a second time changes nothing.
proof fn lemma_clamped_twice(sl: F64, su: F64, v: F64)
    requires
        sl <= su,
    ensures
        ({
            let c = max_of(sl, min_of(su, v));
            same(max_of(sl, min_of(su, c)), c)
        }),
{
    reveal(at_most);
    reveal(below);
    reveal(max_of);
    reveal(min_of);
}

/// Equal steps lead to equal places.
proof fn lemma_placed_same(base: F64, a: F64, b: F64, xl: F64, xu: F64, sl: F64, su: F64)
    requires
        base.finite(),
        xl <= xu,
        sl <= su,
        same(max_of(sl, min_of(su, a)), max_of(sl, min_of(su, b))),
    ensures
        same(placed1(base, a, xl, xu, sl, su), placed1(base, b, xl, xu, sl, su)),
{
    let c = max_of(sl, min_of(su, a));
    let d = max_of(sl, min_of(su, b));
    lemma_same_sum(base, c, d);
    reveal(at_most);
    reveal(below);
    reveal(max_of);
    reveal(min_of);
}

/// The place of the best point stays the same when the base point moves there.
proof fn lemma_moved_same(
    base: F64,
    moved: F64,
    x: F64,
    xl: F64,
    xu: F64,
    sl: F64,
    su: F64,
    w: int,
)
    requires
        base.finite(),
        xl.finite(),
        xu.finite(),
        xl <= xu,
        spans(sl, su, w),
        w <= top(),
        x.within(sl, su),
        moved == max_of(xl, min_of(xu, base + x)) || moved == min_of(max_of(xl, base + x), xu),
    ensures
        ({
            let sl1 = min_of(sl - x, zero());
            let su1 = max_of(su - x, zero());
            same(placed1(moved, zero(), xl, xu, sl1, su1), placed1(base, x, xl, xu, sl, su))
        }),
{
    reveal(at_most);
    reveal(below);
    reveal(max_of);
    reveal(min_of);
    let c = max_of(sl, min_of(su, x));
    assert(same(c, x));
    lemma_same_sum(base, c, x);
    lemma_order_value(sl, x);
    lemma_order_value(x, su);
    lemma_order_value(x, sl);
    lemma_order_value(su, x);
    lemma_difference_near(sl, x);
    lemma_difference_near(su, x);
    if x < su {
        lemma_difference_above(x, su);
    } else {
        assert(su.value() == x.value());
        lemma_equal_difference(su, x);
    }
    if sl < x {
        lemma_difference_above(sl, x);
    } else {
        assert(sl.value() == x.value());
        lemma_equal_difference(sl, x);
    }
    let sl1 = min_of(sl - x, zero());
    let su1 = max_of(su - x, zero());
    let s = max_of(sl1, min_of(su1, zero()));
    assert(same(s, zero()));
    assert(!(base + x).nan()) by {
        reveal(sum_of);
    }
    assert(moved.finite());
    lemma_add_zero(moved);
    lemma_order_value(moved + zero(), moved);
    lemma_order_value(moved, moved + zero());
    lemma_same_sum(moved, s, zero());
}

/// The difference of numbers of the same value is zero.
proof fn lemma_equal_difference(a: F64, b: F64)
    requires
        a.finite(),
        b.finite(),
        a.value() == b.value(),
    ensures
        (a - b).zero(),
{
    lemma_negation_value(b);
    reveal(sum_of);
}

/// The objective was asked at the point `x`, and `f` is the value there.
pub open spec fn asked_at(log: Seq<Asked>, x: Seq<F64>, f: F64) -> bool {
    exists|k: int|
        0 <= k < log.len() && used(#[trigger] log[k]) == f && same_point(log[k].x, x)
}

/// The value with which a run ends, and its evaluations.
pub struct Ending {
    pub f: F64,
    pub log: Seq<Asked>,
}

impl Ending {
    /// The run ends with a value below `f`, or the objective was asked at the point `x` in the
    /// run, with the value `f` there.
    pub open spec fn excuses(self, x: Seq<F64>, f: F64) -> bool {
        self.f < f || asked_at(self.log, x, f)
    }
}

/// What is claimed of the best point: that an ending excuses it, or that its value is below a
/// bar, or, where that counts, that the objective was asked there.
struct Claim {
    ending: Ending,
    bar: F64,
    counts: bool,
}

impl Claim {
    /// The claim holds of the point `x` with the value `f`, whatever was asked.
    spec fn holds(self, x: Seq<F64>, f: F64) -> bool {
        self.ending.excuses(x, f) || f < self.bar
    }

    /// Where it does not count what was asked, values for which the claim holds are not above
    /// the bar.
    spec fn strict(self) -> bool {
        !self.counts ==> forall|x: Seq<F64>, f: F64| #[trigger] self.holds(x, f) ==> f <= self.bar
    }
}

/// The base point lies between the bounds, and the claim holds of the best point.
spec fn sited(t: Task, m: ModelView, log: Seq<Asked>, claim: Claim) -> bool {
    let x = point_at(t, m, m.xopt());
    &&& in_box(m.xbase, t.xl, t.xu)
    &&& claim.holds(x, m.fopt()) || (claim.counts && asked_at(log, x, m.fopt()))
}

/// What was asked stays asked.
proof fn lemma_asked_stays(a: Seq<Asked>, b: Seq<Asked>, x: Seq<F64>, f: F64)
    requires
        asked_at(a, x, f),
        a.len() <= b.len(),
        forall|k: int| 0 <= k < a.len() ==> #[trigger] b[k] == a[k],
    ensures
        asked_at(b, x, f),
{
    let k = choose|k: int|
        0 <= k < a.len() && used(#[trigger] a[k]) == f && same_point(a[k].x, x);
    assert(b[k] == a[k]);
}

/// A set stays sited when more is asked.
proof fn lemma_sited_stays(t: Task, m: ModelView, a: Seq<Asked>, b: Seq<Asked>, claim: Claim)
    requires
        sited(t, m, a, claim),
        a.len() <= b.len(),
        forall|k: int| 0 <= k < a.len() ==> #[trigger] b[k] == a[k],
    ensures
        sited(t, m, b, claim),
{
    if asked_at(a, point_at(t, m, m.xopt()), m.fopt()) {
        lemma_asked_stays(a, b, point_at(t, m, m.xopt()), m.fopt());
    }
}

/// An evaluation asks at its point.
proof fn lemma_asked_here(t: Task, log: Seq<Asked>, x: Seq<F64>, o: Oracle)
    requires
        good_bounds(t.xl, t.xu),
        in_box(x, t.xl, t.xu),
        inside(t, log),
    ensures
        asked_at(asked(log, x, o), x, value_from(log, x, o)),
{
    lemma_asked(t, log, x, o);
    lemma_in_box_moderated(x, t.xl, t.xu);
    let after = asked(log, x, o);
    let k = log.len() as int;
    assert(after[k].x == x);
    assert forall|i: int| 0 <= i < x.len() implies same(#[trigger] x[i], x[i]) by {
        assert(x[i].within(t.xl[i], t.xu[i]));
        reveal(at_most);
    }
    assert(same_point(after[k].x, x));
}

/// What was asked at a point was asked at the same point.
proof fn lemma_asked_same(log: Seq<Asked>, x: Seq<F64>, y: Seq<F64>, f: F64)
    requires
        asked_at(log, x, f),
        same_point(x, y),
    ensures
        asked_at(log, y, f),
{
    let k = choose|k: int|
        0 <= k < log.len() && used(#[trigger] log[k]) == f && same_point(log[k].x, x);
    let z = log[k].x;
    assert forall|i: int| 0 <= i < z.len() implies same(#[trigger] z[i], y[i]) by {
        assert(same(x[i], y[i]));
        reveal(at_most);
    }
    assert(same_point(z, y));
}

/// Moving the base point to the best point keeps the set sited.
proof fn lemma_moved_sited(
    t: Task,
    m: ModelView,
    m1: ModelView,
    log: Seq<Asked>,
    claim: Claim,
    npt: nat,
    w: int,
)
    requires
        good_bounds(t.xl, t.xu),
        set_sized(m, t.xl.len(), npt),
        contained(m, w),
        w <= top(),
        sited(t, m, log, claim),
        m1.sl == Seq::new(t.xl.len(), |i: int| min_of(m.sl[i] - m.xopt()[i], zero())),
        m1.su == Seq::new(t.xl.len(), |i: int| max_of(m.su[i] - m.xopt()[i], zero())),
        m1.xpt == recentred(m.xpt, m.kopt as int),
        m1.kopt == m.kopt,
        m1.fval == m.fval,
        m1.xbase.len() == t.xl.len(),
        forall|i: int|
            0 <= i < t.xl.len() ==> {
                let b = m.xbase[i] + m.xopt()[i];
                ||| #[trigger] m1.xbase[i] == max_of(t.xl[i], min_of(t.xu[i], b))
                ||| m1.xbase[i] == min_of(max_of(t.xl[i], b), t.xu[i])
            },
    ensures
        sited(t, m1, log, claim),
{
    let n = t.xl.len();
    let x = m.xopt();
    assert(x.len() == n);
    let p = point_at(t, m, x);
    let q = point_at(t, m1, m1.xopt());
    assert forall|i: int| 0 <= i < n implies same(#[trigger] p[i], q[i]) by {
        assert(m.xbase[i].within(t.xl[i], t.xu[i]));
        assert(t.xl[i].finite() && t.xu[i].finite() && t.xl[i] <= t.xu[i]);
        assert(m.xbase[i].finite()) by {
            reveal(at_most);
        }
        assert(spans(m.sl[i], m.su[i], w));
        assert(m.xpt[m.kopt as int][i].within(m.sl[i], m.su[i]));
        assert(m1.xbase[i] == m1.xbase[i]);
        lemma_moved_same(
            m.xbase[i],
            m1.xbase[i],
            x[i],
            t.xl[i],
            t.xu[i],
            m.sl[i],
            m.su[i],
            w,
        );
    }
    assert forall|i: int| 0 <= i < n implies (#[trigger] m1.xbase[i]).within(
        t.xl[i],
        t.xu[i],
    ) by {
        assert(t.xl[i] <= t.xu[i]);
        let b = m.xbase[i] + x[i];
        lemma_clamp(t.xl[i], t.xu[i], b);
        assert(min_of(max_of(t.xl[i], b), t.xu[i]).within(t.xl[i], t.xu[i])) by {
            reveal(at_most);
            reveal(below);
            reveal(max_of);
            reveal(min_of);
        }
    }
    if asked_at(log, p, m.fopt()) {
        lemma_asked_same(log, p, q, m.fopt());
    }
    if asked_at(claim.ending.log, p, m.fopt()) {
        lemma_asked_same(claim.ending.log, p, q, m.fopt());
    }
}

/// Replacing a point other than the best one, or the best one by a better one, keeps the set
/// sited, if the objective was asked at the new point.
proof fn lemma_replaced_sited(
    t: Task,
    m: ModelView,
    k: usize,
    d: Seq<F64>,
    v: F64,
    moderr: F64,
    ximproved: bool,
    log: Seq<Asked>,
    claim: Claim,
    npt: nat,
    w: int,
)
    requires
        good_bounds(t.xl, t.xu),
        set_sized(m, t.xl.len(), npt),
        contained(m, w),
        d.len() == t.xl.len(),
        k < npt,
        ximproved || k != m.kopt,
        ximproved ==> v < m.fopt(),
        claim.strict(),
        sited(t, m, log, claim),
        asked_at(log, point_at(t, m, plus(m.xopt(), d)), v),
    ensures
        sited(t, point_replaced(m, k, d, v, moderr, ximproved), log, claim),
{
    reveal(point_replaced);
    let n = t.xl.len();
    let m1 = point_replaced(m, k, d, v, moderr, ximproved);
    assert(m.xpt[m.kopt as int].len() == n);
    if ximproved {
        let p = point_at(t, m, plus(m.xopt(), d));
        let q = point_at(t, m1, m1.xopt());
        assert(m1.xopt() == m1.xpt[k as int]);
        assert forall|i: int| 0 <= i < n implies same(#[trigger] p[i], q[i]) by {
            assert(m.xbase[i].within(t.xl[i], t.xu[i]));
            assert(t.xl[i].finite() && t.xu[i].finite() && t.xl[i] <= t.xu[i]);
            assert(m.xbase[i].finite()) by {
                reveal(at_most);
            }
            assert(spans(m.sl[i], m.su[i], w));
            assert(m.sl[i] <= m.su[i]) by {
                reveal(at_most);
            }
            let a = m.xopt()[i] + d[i];
            let b = max_of(m.sl[i], min_of(m.su[i], a));
            lemma_clamped_twice(m.sl[i], m.su[i], a);
            assert(m1.xopt()[i] == b);
            lemma_placed_same(m.xbase[i], a, b, t.xl[i], t.xu[i], m.sl[i], m.su[i]);
        }
        assert(m1.fopt() == v);
        lemma_asked_same(log, p, q, v);
        reveal(at_most);
        reveal(below);
    } else {
        assert(m1.xopt() == m.xopt());
        assert(m1.fopt() == m.fopt());
        assert(point_at(t, m1, m1.xopt()) == point_at(t, m, m.xopt()));
    }
}

/// The search for the next provisional point leaves the best point alone.
proof fn lemma_sought_best(r: Rescuing, delta: F64)
    requires
        r.ids.len() == r.m.xpt.len(),
        r.m.kopt < r.ids.len(),
        r.ids[r.m.kopt as int] is None,
    ensures
        ({
            let r1 = refill_sought(r, delta);
            &&& r1.m.xbase == r.m.xbase
            &&& r1.m.sl == r.m.sl
            &&& r1.m.su == r.m.su
            &&& r1.m.kopt == r.m.kopt
            &&& r1.m.xopt() == r.m.xopt()
            &&& r1.m.fval == r.m.fval
        }),
    decreases r.ids.len() - r.kpt,
{
    if !(r.kpt >= r.ids.len() || r.kpt >= usize::MAX) {
        let k = r.kpt as int;
        let next = (r.kpt + 1) as usize;
        match r.ids[k] {
            None => {
                lemma_sought_best(Rescuing { kpt: next, ..r }, delta);
            },
            Some(id) => {
                let m = absorbed(r.m, k);
                if not_worth(provisional_point(id, r.a1, r.a2), m.xpt[k], delta) {
                    lemma_sought_best(Rescuing { m, kpt: next, ..r }, delta);
                }
            },
        }
    }
}

/// The evaluation of provisional points keeps the set sited.
proof fn lemma_refilled_sited(
    t: Task,
    npt: nat,
    r: Rescuing,
    delta: F64,
    log: Seq<Asked>,
    o: Oracle,
    claim: Claim,
)
    requires
        good_bounds(t.xl, t.xu),
        set_sized(r.m, t.xl.len(), npt),
        r.ids.len() == npt,
        r.ids[r.m.kopt as int] is None,
        r.a1.len() == t.xl.len(),
        inside(t, log),
        claim.strict(),
        sited(t, r.m, log, claim),
    ensures
        ({
            let (m, after, info) = refilled(t, r, delta, log, o);
            &&& sited(t, m, after, claim)
            &&& log.len() <= after.len()
            &&& forall|k: int| 0 <= k < log.len() ==> #[trigger] after[k] == log[k]
        }),
    decreases r.ids.len() - r.kpt,
{
    let n = t.xl.len();
    let r1 = refill_sought(r, delta);
    lemma_sought(r, delta, n, npt);
    lemma_sought_best(r, delta);
    lemma_refill_advances(r, delta);
    assert(point_at(t, r1.m, r1.m.xopt()) == point_at(t, r.m, r.m.xopt()));
    assert(sited(t, r1.m, log, claim));
    if r1.kpt >= r1.ids.len() || r1.kpt >= usize::MAX {
        let m = rescue_finished(r1);
        assert(point_at(t, m, m.xopt()) == point_at(t, r1.m, r1.m.xopt()));
    } else {
        let k = r1.kpt as int;
        let x = point_at(t, r1.m, r1.m.xpt[k]);
        lemma_point_inside(t, r1.m, r1.m.xpt[k]);
        let v = value_from(log, x, o);
        let log1 = asked(log, x, o);
        lemma_asked(t, log, x, o);
        lemma_asked_here(t, log, x, o);
        let r2 = refill_valued(r1, v);
        let info = exit_code(t.set.maxfun, log1.len() as usize, v, t.set.ftarget, x);
        lemma_sited_stays(t, r1.m, log, log1, claim);
        assert(k != r1.m.kopt);
        assert(sited(t, r2.m, log1, claim)) by {
            if r2.m.kopt == r1.kpt {
                assert(point_at(t, r2.m, r2.m.xopt()) == x);
                assert(r2.m.fopt() == v);
                assert(v < r1.m.fopt());
                reveal(at_most);
                reveal(below);
            } else {
                assert(point_at(t, r2.m, r2.m.xopt()) == point_at(t, r1.m, r1.m.xopt()));
                assert(r2.m.fopt() == r1.m.fopt());
            }
        }
        if info != INFO_DFT {
            let m = rescue_finished(r2);
            assert(point_at(t, m, m.xopt()) == point_at(t, r2.m, r2.m.xopt()));
        } else {
            let r3 = refill_updated(r2, v);
            assert(point_at(t, r3.m, r3.m.xopt()) == point_at(t, r2.m, r2.m.xopt()));
            lemma_refilled_sited(t, npt, r3, delta, log1, o, claim);
        }
    }
}

/// The objective was asked at the last point, and the claim holds of the best point.
spec fn known(t: Task, s: Run, claim: Claim) -> bool {
    &&& sited(t, s.m, s.log, claim)
    &&& asked_at(s.log, s.x, s.f)
}

/// A rescue keeps the points known.
proof fn lemma_rescued_known(t: Task, npt: nat, s: Run, o: Oracle, w: int, claim: Claim)
    requires
        posed(t, npt),
        in_order(t, npt, s),
        !s.ended,
        contained(s.m, w),
        w <= top(),
        known(t, s, claim),
        claim.strict(),
    ensures
        known(t, rescued(t, s, o), claim),
{
    reveal(rescued);
    let n = t.xl.len();
    let r = rescue_prepared(s.m, s.delta, t.xl, t.xu);
    lemma_prepared(s.m, s.delta, t.xl, t.xu, n, npt);
    assert(s.m.xpt[s.m.kopt as int].len() == n);
    lemma_moved_sited(t, s.m, r.m, s.log, claim, npt, w);
    lemma_refilled_sited(t, npt, r, s.delta, s.log, o, claim);
    lemma_asked_stays(s.log, rescued(t, s, o).log, s.x, s.f);
}

/// Taking the trial point into the set keeps the points known.
proof fn lemma_placed_known(t: Task, npt: nat, s: Run, moderr: F64, w: int, claim: Claim)
    requires
        posed(t, npt),
        in_order(t, npt, s),
        contained(s.m, w),
        known(t, s, claim),
        asked_at(s.log, point_at(t, s.m, plus(s.m.xopt(), s.d)), s.f),
        claim.strict(),
    ensures
        known(t, trial_placed(t, s, moderr), claim),
{
    reveal(trial_placed);
    reveal(alternative_tried);
    let m = s.m;
    let ximproved = s.f < m.fopt();
    let den = step_denominators(m, s.d);
    lemma_drop_choice(m.kopt as int, ximproved, s.d, s.rho, m.xpt, den);
    match point_to_drop(m.kopt as int, ximproved, s.d, s.rho, m.xpt, den) {
        None => {},
        Some(k) => {
            lemma_replaced_sited(
                t,
                m,
                k as usize,
                s.d,
                s.f,
                moderr,
                ximproved,
                s.log,
                claim,
                npt,
                w,
            );
            let m1 = point_replaced(m, k as usize, s.d, s.f, moderr, ximproved);
            let m2 = alternative_tried(m1, s.ratio, s.itest).0;
            assert(point_at(t, m2, m2.xopt()) == point_at(t, m1, m1.xopt()));
        },
    }
}

/// Taking in a trial point that is no better than the best one keeps the points known.
proof fn lemma_placed_still(t: Task, npt: nat, s: Run, moderr: F64, claim: Claim)
    requires
        in_order(t, npt, s),
        known(t, s, claim),
        !(s.f < s.m.fopt()),
    ensures
        known(t, trial_placed(t, s, moderr), claim),
{
    reveal(trial_placed);
    reveal(alternative_tried);
    reveal(point_replaced);
    let m = s.m;
    let den = step_denominators(m, s.d);
    lemma_drop_choice(m.kopt as int, false, s.d, s.rho, m.xpt, den);
    let m1 = trial_placed(t, s, moderr).m;
    assert(point_at(t, m1, m1.xopt()) == point_at(t, m, m.xopt()));
}

/// After a rescue the set takes in the trial point of this iteration as the best one.
pub open spec fn carried(t: Task, s: Run, o: Oracle) -> bool {
    let s1 = stepped(s);
    let qred = -increment(s1.m, s1.d);
    let x = point_at(t, s1.m, plus(s1.m.xopt(), s1.d));
    let s2 = Run { rescued: false, ..s1.evaluated(x, o) };
    let s3 = judged(t, s2, qred);
    &&& !(s1.shortd || step_fails(s1))
    &&& exit_code(t.set.maxfun, s2.log.len() as usize, s2.f, t.set.ftarget, x) == INFO_DFT
    &&& s3.f < s3.m.fopt()
    &&& trial_damaged(s3.m, s3.d)
    &&& !rescued(t, s3, o).ended
    &&& s3.f < rescued(t, s3, o).m.fopt()
}

/// The ending excuses the place of the best point after the trust-region part of an iteration
/// that carries its trial point over a rescue.
pub open spec fn carries_well(t: Task, s: Run, o: Oracle, ending: Ending) -> bool {
    let m = trial(t, s, o).m;
    carried(t, s, o) ==> ending.excuses(point_at(t, m, m.xopt()), m.fopt())
}

/// The trust-region part keeps the points known.
proof fn lemma_trial_known(t: Task, npt: nat, s: Run, o: Oracle, w: int, claim: Claim)
    requires
        posed(t, npt),
        radii_positive(t),
        in_order(t, npt, s),
        !s.ended,
        bounded(s, w),
        w <= top(),
        known(t, s, claim),
        claim.strict(),
        claim.counts ==> carries_well(t, s, o, claim.ending),
    ensures
        known(t, trial(t, s, o), claim),
{
    reveal(trial);
    reveal(stepped);
    reveal(shortened);
    reveal(tried);
    reveal(judged);
    reveal(carried_over);
    let n = t.xl.len();
    assert(s.m.xpt[s.m.kopt as int].len() == n);
    let s1 = stepped(s);
    if !(s1.shortd || step_fails(s1)) {
        let qred = -increment(s1.m, s1.d);
        let step = plus(s1.m.xopt(), s1.d);
        let x = point_at(t, s1.m, step);
        lemma_point_inside(t, s1.m, step);
        let e = s1.evaluated(x, o);
        let info = exit_code(t.set.maxfun, e.log.len() as usize, e.f, t.set.ftarget, x);
        lemma_evaluated(t, npt, s1, x, o, info);
        lemma_asked_here(t, s1.log, x, o);
        lemma_sited_stays(t, s1.m, s1.log, e.log, claim);
        let s2 = Run { rescued: false, ..e };
        assert(known(t, s2, claim));
        if info == INFO_DFT {
            let s3 = judged(t, s2, qred);
            assert(in_order(t, npt, s3));
            assert(known(t, s3, claim));
            if s3.f < s3.m.fopt() && trial_damaged(s3.m, s3.d) {
                lemma_rescued(t, npt, s3, o);
                lemma_rescued_known(t, npt, s3, o, w, claim);
                let s4 = rescued(t, s3, o);
                if !s4.ended {
                    let s5 = carried_over(s4);
                    let moderr = s5.f - s5.m.fopt() - increment(s5.m, s5.d);
                    if s5.f < s5.m.fopt() {
                        assert(carried(t, s, o));
                        let s6 = trial_placed(t, s5, moderr);
                        assert(s6.m.fopt() == s5.f) by {
                            let m = s5.m;
                            let den = step_denominators(m, s5.d);
                            lemma_drop_choice(m.kopt as int, true, s5.d, s5.rho, m.xpt, den);
                            reveal(trial_placed);
                            reveal(alternative_tried);
                            reveal(point_replaced);
                        }
                        reveal(at_most);
                        reveal(below);
                        assert(in_box(s6.m.xbase, t.xl, t.xu)) by {
                            reveal(trial_placed);
                            reveal(alternative_tried);
                            reveal(point_replaced);
                        }
                        assert(s6.log == s5.log && s6.x == s5.x && s6.f == s5.f) by {
                            reveal(trial_placed);
                        }
                    } else {
                        assert(in_order(t, npt, s5));
                        lemma_placed_still(t, npt, s5, moderr, claim);
                    }
                }
            } else {
                lemma_placed_known(t, npt, s3, s3.f - s3.m.fopt() + qred, w, claim);
            }
        }
    }
}

/// The geometry part keeps the points known.
proof fn lemma_improved_known(t: Task, npt: nat, s: Run, o: Oracle, w: int, claim: Claim)
    requires
        posed(t, npt),
        in_order(t, npt, s),
        !s.ended,
        contained(s.m, w),
        w <= top(),
        known(t, s, claim),
        farthest(s.m) != s.m.kopt,
        claim.strict(),
    ensures
        known(t, improved(t, s, o), claim),
{
    reveal(improved);
    reveal(improvement_tried);
    let n = t.xl.len();
    let k = farthest(s.m);
    lemma_first_in_range(spread(s.m), npt);
    assert(s.m.xpt[s.m.kopt as int].len() == n);
    assert(s.m.xpt[k].len() == n);
    let s1 = Run { d: improving_step(s), ..s };
    lemma_geometry_len(improvement_of(s));
    assert(in_order(t, npt, s1));
    if improvement_damaged(s1.m, s1.d, k) {
        if !s1.rescued {
            lemma_rescued_known(t, npt, s1, o, w, claim);
        }
    } else {
        let step = plus(s1.m.xopt(), s1.d);
        let x = point_at(t, s1.m, step);
        lemma_point_inside(t, s1.m, step);
        let e = s1.evaluated(x, o);
        let info = exit_code(t.set.maxfun, e.log.len() as usize, e.f, t.set.ftarget, x);
        lemma_evaluated(t, npt, s1, x, o, info);
        lemma_asked_here(t, s1.log, x, o);
        lemma_sited_stays(t, s1.m, s1.log, e.log, claim);
        if info == INFO_DFT {
            let moderr = e.f - e.m.fopt() - increment(e.m, e.d);
            lemma_replaced_sited(
                t,
                e.m,
                k as usize,
                e.d,
                e.f,
                moderr,
                e.f < e.m.fopt(),
                e.log,
                claim,
                npt,
                w,
            );
        }
    }
}

/// The part of an iteration that follows the trial step keeps the points known.
proof fn lemma_settled_known(t: Task, npt: nat, s: Run, o: Oracle, w: int, claim: Claim)
    requires
        posed(t, npt),
        radii_positive(t),
        in_order(t, npt, s),
        !s.ended,
        bounded(s, w),
        w + 4 * half_ulp() <= top(),
        claim.strict(),
        known(t, trial(t, s, o), claim),
    ensures
        known(t, iterated(t, s, o), claim),
{
    reveal(iterated);
    reveal(settled_down);
    reveal(sharpened);
    reveal(rebased);
    let n = t.xl.len();
    let w1 = w + 2 * half_ulp();
    lemma_trial(t, npt, s, o);
    lemma_iterated_bounded(t, npt, s, o, w);
    let s1 = trial(t, s, o);
    if !s1.ended {
        let failed = step_fails(stepped(s));
        let geometry = wants_geometry(t, s1, failed);
        if geometry {
            lemma_spread_real(s1.m, n, npt, w1);
            lemma_farthest(s1, npt);
            lemma_improved(t, npt, s1, o);
            lemma_improved_known(t, npt, s1, o, w1, claim);
            lemma_improved_bounded(t, npt, s1, o, w1);
        }
        let s2 = if geometry {
            improved(t, s1, o)
        } else {
            s1
        };
        let w2 = w + 4 * half_ulp();
        if !geometry {
            lemma_contained_wider(s1.m, w1, w2);
        }
        if !s2.ended {
            let m = base_moved(t, s2.m);
            assert(s2.m.xpt[s2.m.kopt as int].len() == n);
            assert(sited(t, m, s2.log, claim)) by {
                reveal(base_moved);
                lemma_moved_sited(t, s2.m, m, s2.log, claim, npt, w2);
            }
        }
    }
}

/// The ending excuses the place of the best point in each of the first `k` iterations that
/// carries its trial point over a rescue.
pub open spec fn all_carry_well(t: Task, s: Run, k: nat, o: Oracle, ending: Ending) -> bool
    decreases k,
{
    k == 0 || s.ended || {
        &&& carries_well(t, s, o, ending)
        &&& all_carry_well(t, iterated(t, s, o), (k - 1) as nat, o, ending)
    }
}

/// A run that ends with a value below every number would excuse every place.
proof fn lemma_all_excused(t: Task, npt: nat, s: Run, k: nat, o: Oracle, ending: Ending)
    requires
        posed(t, npt),
        in_order(t, npt, s),
        ending.f == neg_infinity(),
    ensures
        all_carry_well(t, s, k, o, ending),
    decreases k,
{
    if k > 0 && !s.ended {
        let s1 = trial(t, s, o);
        lemma_trial(t, npt, s, o);
        assert(was_found(s1.m.fval[s1.m.kopt as int], s1.log));
        lemma_found_finite(s1.m.fopt(), s1.log);
        assert(neg_infinity() < s1.m.fopt()) by {
            reveal(below);
        }
        lemma_iterated(t, npt, s, o);
        lemma_all_excused(t, npt, iterated(t, s, o), (k - 1) as nat, o, ending);
    }
}

/// The run returns its last point, or the best point of the set, and then in its place: where an
/// iteration carried a trial point over a rescue, as the best one of the set, the run ends with a
/// value below the one of that point, or the objective was asked in the run at the place that the
/// point had afterwards, with the same value.
pub open spec fn returns_in_place(t: Task, npt: nat, x0: Seq<F64>, o: Oracle) -> bool {
    let s = begun(t, npt, x0, o);
    let k = iteration_limit(t.set.maxfun);
    let last = last_step(t, iterations(t, s, k, o), o);
    let r = solved(t, npt, x0, o);
    s.ended || !(last.m.fopt() < last.f) || all_carry_well(
        t,
        s,
        k,
        o,
        Ending { f: r.f, log: r.log },
    )
}

/// Iterations keep the points known.
proof fn lemma_iterations_known(t: Task, npt: nat, s: Run, k: nat, o: Oracle, claim: Claim)
    requires
        posed(t, npt),
        radii_positive(t),
        in_order(t, npt, s),
        bounded(s, allowance(s)),
        iterations(t, s, k, o).log.len() <= LONG_RUN,
        known(t, s, claim),
        claim.strict(),
        claim.counts ==> all_carry_well(t, s, k, o, claim.ending),
    ensures
        known(t, iterations(t, s, k, o), claim),
    decreases k,
{
    if k > 0 && !s.ended {
        lemma_iterated(t, npt, s, o);
        lemma_iterations_log(t, s, k, o);
        lemma_allowance_room(s);
        lemma_trial_known(t, npt, s, o, allowance(s), claim);
        lemma_settled_known(t, npt, s, o, allowance(s), claim);
        lemma_iterated_paid(t, npt, s, o);
        lemma_iterations_known(t, npt, iterated(t, s, o), (k - 1) as nat, o, claim);
    }
}

/// The claim that the objective was asked at the best point, unless the ending excuses that.
spec fn claim_of(ending: Ending) -> Claim {
    Claim { ending, bar: neg_infinity(), counts: true }
}

/// The ending that excuses nothing that a run can meet.
spec fn no_ending() -> Ending {
    Ending { f: neg_infinity(), log: Seq::empty() }
}

/// A best point that a rescue displaces stays where it is until a better one is found: where an
/// iteration carries its trial point over a rescue to a place that the ending does not excuse,
/// and the run ends with that value, the objective was not asked at the best point in the end.
proof fn lemma_displaced(t: Task, npt: nat, s: Run, k: nat, o: Oracle, ending: Ending)
    requires
        posed(t, npt),
        radii_positive(t),
        in_order(t, npt, s),
        bounded(s, allowance(s)),
        iterations(t, s, k, o).log.len() <= LONG_RUN,
        known(t, s, claim_of(no_ending())),
        !all_carry_well(t, s, k, o, ending),
        ending.f == iterations(t, s, k, o).m.fopt(),
    ensures
        ({
            let m = iterations(t, s, k, o).m;
            !asked_at(ending.log, point_at(t, m, m.xopt()), m.fopt())
        }),
    decreases k,
{
    let none = claim_of(no_ending());
    let s1 = trial(t, s, o);
    let s2 = iterated(t, s, o);
    lemma_all_excused(t, npt, s, k, o, no_ending());
    lemma_iterated(t, npt, s, o);
    lemma_iterations_log(t, s, k, o);
    lemma_allowance_room(s);
    lemma_trial_known(t, npt, s, o, allowance(s), none);
    lemma_iterated_paid(t, npt, s, o);
    if carries_well(t, s, o, ending) {
        lemma_settled_known(t, npt, s, o, allowance(s), none);
        lemma_displaced(t, npt, s2, (k - 1) as nat, o, ending);
    } else {
        let q = point_at(t, s1.m, s1.m.xopt());
        let v = s1.m.fopt();
        lemma_trial(t, npt, s, o);
        assert(was_found(s1.m.fval[s1.m.kopt as int], s1.log));
        lemma_found_finite(v, s1.log);
        let j = choose|j: int| 0 <= j < s1.log.len() && v == used(#[trigger] s1.log[j]);
        let entry = Asked { x: q, raw: s1.log[j].raw };
        let log = seq![entry];
        let held = Claim {
            ending: Ending { f: infinity(), log },
            bar: v,
            counts: false,
        };
        reveal(at_most);
        reveal(below);
        assert(held.strict()) by {
            assert forall|x: Seq<F64>, f: F64| #[trigger] held.holds(x, f) implies f <= v by {
                if asked_at(log, x, f) {
                    assert(f == v);
                }
            }
        }
        assert(asked_at(log, q, v)) by {
            assert(used(log[0]) == v);
            assert(s1.m.xpt[s1.m.kopt as int].len() == t.xl.len());
            lemma_point_inside(t, s1.m, s1.m.xopt());
            assert forall|i: int| 0 <= i < q.len() implies same(#[trigger] q[i], q[i]) by {
                assert(q[i].within(t.xl[i], t.xu[i]));
            }
            assert(same_point(log[0].x, q));
        }
        lemma_settled_known(t, npt, s, o, allowance(s), held);
        lemma_iterations_known(t, npt, s2, (k - 1) as nat, o, held);
        let m = iterations(t, s, k, o).m;
        let p = point_at(t, m, m.xopt());
        assert(held.holds(p, m.fopt()));
        assert(!(m.fopt() < v));
        assert(asked_at(log, p, m.fopt()));
        assert(m.fopt() == v && same_point(q, p));
        if asked_at(ending.log, p, m.fopt()) {
            assert(same_point(p, q)) by {
                assert forall|i: int| 0 <= i < p.len() implies same(#[trigger] p[i], q[i]) by {
                    assert(same(q[i], p[i]));
                }
            }
            lemma_asked_same(ending.log, p, q, v);
        }
    }
}

/// A coordinate of the base point lies between the bounds at the start.
proof fn lemma_start_in_box(x0: F64, xl: F64, xu: F64, rhobeg: F64)
    requires
        xl.finite(),
        xu.finite(),
        xl <= xu,
    ensures
        start_of(x0, xl, xu, rhobeg).x.within(xl, xu),
{
    reveal(at_most);
    if xl - x0 < zero() && xu - x0 > zero() {
        assert(x0.finite() && xl.value() < x0.value() < xu.value()) by {
            reveal(sum_of);
            reveal(below);
            lemma_negation_value(x0);
            lemma_fields(0);
        }
        lemma_order_value(xl, x0);
        lemma_order_value(x0, xu);
    }
}

/// The objective was asked at the first points of the set.
spec fn first_asked(t: Task, m: ModelView, i: Filling) -> bool {
    forall|k: int|
        0 <= k < i.log.len() ==> asked_at(
            i.log,
            point_at(t, m, #[trigger] m.xpt[k]),
            i.fval[k],
        )
}

/// The evaluation of the initial set asks at its points.
proof fn lemma_filled_asked(t: Task, m: ModelView, i: Filling, upto: nat, o: Oracle)
    requires
        good_bounds(t.xl, t.xu),
        m.xbase.len() == t.xl.len(),
        upto <= i.fval.len(),
        inside(t, i.log),
        first_asked(t, m, i),
    ensures
        first_asked(t, m, filled(t, m, i, upto, o)),
        i.log.len() <= upto ==> filled(t, m, i, upto, o).log.len() <= upto,
    decreases upto - i.log.len(),
{
    let k = i.log.len() as int;
    if !(k >= upto || i.info != INFO_DFT) {
        let x = point_at(t, m, m.xpt[k]);
        lemma_point_inside(t, m, m.xpt[k]);
        let v = value_from(i.log, x, o);
        let next = Filling {
            fval: i.fval.update(k, v),
            log: asked(i.log, x, o),
            info: exit_code(t.set.maxfun, (k + 1) as usize, v, t.set.ftarget, x),
        };
        lemma_asked(t, i.log, x, o);
        lemma_asked_here(t, i.log, x, o);
        assert forall|j: int| 0 <= j < next.log.len() implies asked_at(
            next.log,
            point_at(t, m, #[trigger] m.xpt[j]),
            next.fval[j],
        ) by {
            if j < k {
                lemma_asked_stays(i.log, next.log, point_at(t, m, m.xpt[j]), i.fval[j]);
            }
        }
        lemma_filled_asked(t, m, next, upto, o);
    }
}

/// The objective was asked at the points on the coordinate directions, in their order.
proof fn lemma_half_asked(t: Task, npt: nat, x0: Seq<F64>, o: Oracle)
    requires
        posed(t, npt),
        x0.len() == t.xl.len(),
    ensures
        ({
            let (m, i) = half_filled(t, npt, x0, o);
            first_asked(t, m, i)
        }),
{
    let n = t.xl.len();
    let m0 = laid_out(t, npt, x0);
    let limit = if npt < 2 * n + 1 {
        npt
    } else {
        2 * n + 1
    };
    let start = Filling { fval: m0.fval, log: Seq::empty(), info: INFO_DFT };
    let i0 = filled(t, m0, start, limit, o);
    lemma_filled(t, npt, m0, start, limit, o);
    lemma_filled_asked(t, m0, start, limit, o);
    let count = i0.log.len() as int;
    let (m1, i1) = half_filled(t, npt, x0, o);
    assert(count <= limit);
    assert forall|k: int| 0 <= k < count implies !(realmax() < #[trigger] i0.fval[k]) by {
        lemma_moderated_value(i0.log[k].raw);
        reveal(below);
        reveal(at_most);
    }
    assert(!(realmax() < realmax())) by {
        reveal(below);
    }
    assert forall|k: int| 0 <= k < count implies asked_at(
        i1.log,
        point_at(t, m1, #[trigger] m1.xpt[k]),
        i1.fval[k],
    ) by {
        let j = source_of(n, i0.fval, m0.xpt, k);
        assert(0 <= j < count);
        assert(m1.xpt[k] == m0.xpt[j]);
        assert(i1.fval[k] == i0.fval[j]);
        assert(asked_at(i0.log, point_at(t, m0, m0.xpt[j]), i0.fval[j]));
        assert(point_at(t, m1, m1.xpt[k]) == point_at(t, m0, m0.xpt[j]));
    }
}

/// The points of a run are known when it begins.
proof fn lemma_begun_known(t: Task, npt: nat, x0: Seq<F64>, o: Oracle, claim: Claim)
    requires
        posed(t, npt),
        x0.len() == t.xl.len(),
        claim.counts,
    ensures
        known(t, begun(t, npt, x0, o), claim),
{
    reveal(begun);
    let n = t.xl.len();
    let (m1, i1) = half_filled(t, npt, x0, o);
    lemma_half_filled(t, npt, x0, o);
    lemma_half_asked(t, npt, x0, o);
    lemma_filled_asked(t, m1, i1, npt, o);
    let (m2, i2) = set_filled(t, npt, x0, o);
    lemma_set_filled(t, npt, x0, o);
    let s = begun(t, npt, x0, o);
    let k = m2.kopt as int;
    assert(asked_at(i2.log, point_at(t, m1, m1.xpt[k]), i2.fval[k]));
    assert(point_at(t, s.m, s.m.xopt()) == point_at(t, m1, m1.xpt[k]));
    assert(point_at(t, m2, m2.xopt()) == point_at(t, m1, m1.xpt[k]));
    assert forall|i: int| 0 <= i < n implies (#[trigger] s.m.xbase[i]).within(
        t.xl[i],
        t.xu[i],
    ) by {
        assert(t.xl[i] <= t.xu[i] && t.xl[i].finite() && t.xu[i].finite());
        lemma_start_in_box(x0[i], t.xl[i], t.xu[i], t.set.rhobeg);
    }
}

/// A run that is not too long ends at a point where the objective was asked, with the value
/// there, unless it returns a point that a rescue displaced, and then it does not.
pub proof fn lemma_best_point(t: Task, npt: nat, x0: Seq<F64>, o: Oracle)
    requires
        posed(t, npt),
        x0.len() == t.xl.len(),
        2 * npt <= (t.xl.len() + 1) * (t.xl.len() + 2),
        roomy(t),
        radii_positive(t),
        solved(t, npt, x0, o).log.len() <= LONG_RUN,
    ensures
        ({
            let s = solved(t, npt, x0, o);
            asked_at(s.log, s.x, s.f) <==> returns_in_place(t, npt, x0, o)
        }),
{
    reveal(last_step);
    reveal(chosen);
    let r = solved(t, npt, x0, o);
    let none = claim_of(no_ending());
    let ending = Ending { f: r.f, log: r.log };
    let s = begun(t, npt, x0, o);
    lemma_begun(t, npt, x0, o);
    lemma_begun_known(t, npt, x0, o, none);
    if !s.ended {
        let k = iteration_limit(t.set.maxfun);
        lemma_begun_paid(t, npt, x0, o);
        lemma_iterations(t, npt, s, k, o);
        lemma_all_excused(t, npt, s, k, o, no_ending());
        lemma_iterations_known(t, npt, s, k, o, none);
        let s1 = iterations(t, s, k, o);
        let x = point_at(t, s1.m, plus(s1.m.xopt(), s1.d));
        lemma_point_inside(t, s1.m, plus(s1.m.xopt(), s1.d));
        lemma_asked(t, s1.log, x, o);
        lemma_asked_here(t, s1.log, x, o);
        lemma_found_finite(s1.f, s1.log);
        let last = last_step(t, s1, o);
        assert(asked_at(last.log, last.x, last.f));
        if last.m.fopt() < last.f {
            let claim = claim_of(ending);
            if all_carry_well(t, s, k, o, ending) {
                lemma_begun_known(t, npt, x0, o, claim);
                lemma_iterations_known(t, npt, s, k, o, claim);
                lemma_sited_stays(t, s1.m, s1.log, last.log, claim);
                assert(was_found(s1.m.fval[s1.m.kopt as int], s1.log));
                lemma_found_finite(s1.m.fopt(), s1.log);
                reveal(below);
            } else {
                lemma_displaced(t, npt, s, k, o, ending);
            }
        }
    } else {
        assert(was_found(s.m.fval[s.m.kopt as int], s.log));
        lemma_found_finite(s.m.fopt(), s.log);
        reveal(below);
    }
}

} // verus!
