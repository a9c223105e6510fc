//! Where a run starts.
use vstd::prelude::*;

use crate::args_valid;
use crate::bobyqb::course::asked;
use crate::bobyqb::course::begun;
use crate::bobyqb::course::chosen;
use crate::bobyqb::course::filled;
use crate::bobyqb::course::goes_on;
use crate::bobyqb::course::half_filled;
use crate::bobyqb::course::iteration_limit;
use crate::bobyqb::course::iterations;
use crate::bobyqb::course::laid_out;
use crate::bobyqb::course::last_step;
use crate::bobyqb::course::point_at;
use crate::bobyqb::course::solved;
use crate::bobyqb::course::value_from;
use crate::bobyqb::course::Asked;
use crate::bobyqb::course::Filling;
use crate::bobyqb::course::Oracle;
use crate::bobyqb::course::Task;
use crate::bobyqb::drift::lemma_goes_on;
use crate::bobyqb::drift::lemma_iterations_log;
use crate::bobyqb::span::leaves_room;
use crate::bobyqb::span::lemma_reach;
use crate::bobyqb::span::lemma_room;
use crate::config_valid;
use crate::consts::half;
use crate::consts::two;
use crate::consts::zero;
use crate::consts::INFO_DFT;
use crate::float::arith::lemma_fields;
use crate::float::arith::sum_of;
use crate::float::near::lemma_add_zero;
use crate::float::near::lemma_half_near;
use crate::float::near::lemma_half_product;
use crate::float::near::lemma_negation_value;
use crate::float::near::lemma_order_value;
use crate::float::near::lemma_round_near;
use crate::float::near::lemma_sum_beside;
use crate::float::near::lemma_two_exact;
use crate::float::near::lemma_two_product;
use crate::float::near::top;
use crate::float::order::at_most;
use crate::float::order::below;
use crate::float::order::max_of;
use crate::float::order::min_of;
use crate::float::units;
use crate::float::F64;
use crate::geometry::lemma_difference_zero;
use crate::geometry::lemma_gap;
use crate::geometry::lemma_gap_sign;
use crate::initialize::start_of;
use crate::laws::lemma_replayed;
use crate::laws::lemma_task_roomy;
use crate::laws::replay;
use crate::minimized;
use crate::model::ModelView;
use crate::off_lower;
use crate::off_upper;
use crate::start_coordinate;
use crate::start_point;
use crate::task_of;
use crate::usable_lower;
use crate::usable_upper;
use crate::util::exit_code;
use crate::util::lemma_moderated_finite;
use crate::util::moderated;
use crate::util::moderated_x;
use crate::util::placed1;
use crate::Config;
use crate::Outcome;

verus! {

/// The distance of two integers.
pub open spec fn gap_of(a: int, b: int) -> int {
    if a < b {
        b - a
    } else {
        a - b
    }
}

/// How far the rounding of a sum takes it from the exact one, in smallest units.
pub open spec fn sum_gap(a: F64, b: F64) -> int {
    gap_of((a + b).value(), a.value() + b.value())
}

/// The roundings in the sums and differences of the bounds with the radius, its half and each
/// other.
pub open spec fn start_gap(l: F64, u: F64, rho: F64) -> int {
    sum_gap(l, half() * rho) + sum_gap(l, rho) + sum_gap(u, -(half() * rho)) + sum_gap(u, -rho)
        + sum_gap(u, -l)
}

/// The number nearest to `x` that lies between `l` and `u`.
pub open spec fn nearest_between(x: F64, l: F64, u: F64) -> F64 {
    if x <= l {
        l
    } else if x >= u {
        u
    } else {
        x
    }
}

/// A sum that is not above the largest number is finite.
pub(crate) proof fn lemma_sum_finite(a: F64, b: F64)
    requires
        a.finite(),
        b.finite(),
        -top() <= a.value() + b.value() <= top(),
    ensures
        (a + b).finite(),
{
    reveal(sum_of);
    lemma_fields(0);
    let s = a.value() + b.value();
    if s < 0 {
        lemma_round_near((-s) as nat, 1);
    } else {
        lemma_round_near(s as nat, 1);
    }
}

/// Between finite bounds the method takes the nearest number for a coordinate that is not NaN.
proof fn lemma_clipped(x: F64, l: F64, u: F64)
    requires
        !x.nan(),
        l.finite(),
        u.finite(),
        l <= u,
    ensures
        ({
            let v = max_of(l, min_of(u, moderated_x(x)));
            &&& v.finite()
            &&& v.value() == nearest_between(x, l, u).value()
            &&& l <= v
            &&& v <= u
        }),
{
    reveal(max_of);
    reveal(min_of);
    reveal(below);
    reveal(at_most);
    let v = max_of(l, min_of(u, moderated_x(x)));
    let w = nearest_between(x, l, u);
    assert(v.key() == w.key());
    lemma_order_value(v, w);
    lemma_order_value(w, v);
}

/// The place among the marks beside the bounds.
spec fn place(v: int, l: int, u: int, a: int, b: int, c: int, d: int) -> int {
    let w = if v <= a {
        l
    } else if v < b {
        b
    } else {
        v
    };
    if w >= c {
        u
    } else if w > d {
        d
    } else {
        w
    }
}

/// A coordinate between the bounds gets its place among the marks.
proof fn lemma_off(v: F64, l: F64, u: F64, rho: F64)
    requires
        v.finite(),
        l.finite(),
        u.finite(),
        (l + half() * rho).finite(),
        (l + rho).finite(),
        (u - half() * rho).finite(),
        (u - rho).finite(),
    ensures
        ({
            let r = off_upper(off_lower(v, l, rho), u, rho);
            &&& r.finite()
            &&& r.value() == place(
                v.value(),
                l.value(),
                u.value(),
                (l + half() * rho).value(),
                (l + rho).value(),
                (u - half() * rho).value(),
                (u - rho).value(),
            )
        }),
{
    lemma_order_value(v, l + half() * rho);
    lemma_order_value(v, l + rho);
    let w = off_lower(v, l, rho);
    lemma_order_value(u - half() * rho, w);
    lemma_order_value(u - rho, w);
}

/// The place that the start gets, in exact numbers: `a` and `b` stand for the lower bound plus half
/// of the radius and plus the radius, `c` and `d` for the upper bound less these, `s` for the
/// distance of the bounds, each up to `e`.
proof fn lemma_place(
    v: int,
    l: int,
    u: int,
    rho: int,
    h: int,
    a: int,
    b: int,
    c: int,
    d: int,
    s: int,
    e: int,
)
    requires
        -1 <= 2 * h - rho <= 1,
        0 <= rho,
        rho <= u - l,
        2 * rho <= s,
        l <= v <= u,
        l <= b <= u,
        l <= d <= u,
        gap_of(a, l + h) + gap_of(b, l + rho) + gap_of(c, u - h) + gap_of(d, u - rho) + gap_of(
            s,
            u - l,
        ) == e,
    ensures
        ({
            let r = place(v, l, u, a, b, c, d);
            &&& l <= r <= u
            &&& 2 * (r - v) <= rho + 4 * e + 2
            &&& 2 * (v - r) <= rho + 4 * e + 2
            &&& r == l || r - l >= rho - e
            &&& r == u || u - r >= rho - e
            &&& v - l > rho + e && u - v > rho + e ==> r == v
        }),
{
}

/// The marks beside the bounds are finite and in order.
proof fn lemma_marks(l: F64, u: F64, rho: F64)
    requires
        rho.finite(),
        !rho.sign(),
        leaves_room(l, u, rho),
    ensures
        ({
            let h = half() * rho;
            &&& l.finite() && u.finite() && h.finite() && (u - l).finite()
            &&& (l + h).finite() && (l + rho).finite() && (u - h).finite() && (u - rho).finite()
            &&& -1 <= 2 * h.value() - rho.value() <= 1
            &&& 0 <= rho.value() <= u.value() - l.value()
            &&& 2 * rho.value() <= (u - l).value()
            &&& l.value() <= (l + rho).value() <= u.value()
            &&& l.value() <= (u - rho).value() <= u.value()
            &&& (-h).value() == -h.value()
            &&& (-rho).value() == -rho.value()
            &&& (-l).value() == -l.value()
        }),
{
    let h = half() * rho;
    lemma_reach();
    lemma_room(l, u, rho);
    lemma_half_near(rho);
    lemma_half_product(rho);
    lemma_negation_value(h);
    lemma_negation_value(rho);
    lemma_negation_value(l);
    let b = l + rho;
    let d = u - rho;
    lemma_sum_finite(l, h);
    lemma_sum_finite(l, rho);
    lemma_sum_finite(u, -h);
    lemma_sum_finite(u, -rho);
    assert((two() * rho).finite()) by {
        reveal(at_most);
        lemma_two_product(rho);
    }
    lemma_two_exact(rho);
    lemma_order_value(two() * rho, u - l);
    lemma_sum_beside(l, rho, l);
    lemma_sum_beside(u, -rho, u);
    lemma_sum_beside(u, -l, rho);
    lemma_order_value(u - l, rho);
    assert(rho.value() <= u.value() - l.value());
    lemma_sum_beside(l, rho, u);
    lemma_sum_beside(u, -rho, l);
    lemma_order_value(l, b);
    lemma_order_value(b, u);
    lemma_order_value(l, d);
    lemma_order_value(d, u);
}

/// Where a coordinate of the start of a run lies: no farther from the number nearest to the given
/// one between the bounds than half of the radius, on a bound or at least the radius away from
/// it, and at that number itself where that is away from both bounds; all up to the roundings in
/// the sums of the bounds with the radius.
pub proof fn lemma_start_coordinate(x: F64, l: F64, u: F64, rho: F64)
    requires
        !x.nan(),
        rho.finite(),
        !rho.sign(),
        leaves_room(l, u, rho),
    ensures
        ({
            let v = nearest_between(x, l, u).value();
            let r = start_coordinate(x, l, u, rho);
            let e = start_gap(l, u, rho);
            &&& r.finite()
            &&& l.value() <= r.value() <= u.value()
            &&& 2 * (r.value() - v) <= rho.value() + 4 * e + 2
            &&& 2 * (v - r.value()) <= rho.value() + 4 * e + 2
            &&& r.value() == l.value() || r.value() - l.value() >= rho.value() - e
            &&& r.value() == u.value() || u.value() - r.value() >= rho.value() - e
            &&& v - l.value() > rho.value() + e && u.value() - v > rho.value() + e ==> r.value()
                == v
        }),
{
    let h = half() * rho;
    let a = l + h;
    let b = l + rho;
    let c = u - h;
    let d = u - rho;
    lemma_marks(l, u, rho);
    lemma_clipped(x, l, u);
    let v = max_of(l, min_of(u, moderated_x(x)));
    lemma_order_value(l, v);
    lemma_order_value(v, u);
    lemma_off(v, l, u, rho);
    lemma_place(
        v.value(),
        l.value(),
        u.value(),
        rho.value(),
        h.value(),
        a.value(),
        b.value(),
        c.value(),
        d.value(),
        (u - l).value(),
        start_gap(l, u, rho),
    );
}

/// The first points of the log stay where they are while a set is filled.
proof fn lemma_filled_goes_on(t: Task, m: ModelView, i: Filling, upto: nat, o: Oracle)
    ensures
        goes_on(i.log, filled(t, m, i, upto, o).log),
        i.info == INFO_DFT && i.log.len() < upto ==> {
            let k = i.log.len() as int;
            let l = filled(t, m, i, upto, o).log;
            l.len() > k && l[k].x == moderated(point_at(t, m, m.xpt[k]))
        },
    decreases upto - i.log.len(),
{
    let k = i.log.len();
    if !(k >= upto || i.info != INFO_DFT) {
        let x = point_at(t, m, m.xpt[k as int]);
        let f = value_from(i.log, x, o);
        let next = Filling {
            fval: i.fval.update(k as int, f),
            log: asked(i.log, x, o),
            info: exit_code(t.set.maxfun, (k + 1) as usize, f, t.set.ftarget, x),
        };
        lemma_filled_goes_on(t, m, next, upto, o);
        assert(goes_on(i.log, next.log));
        lemma_goes_on(i.log, next.log, filled(t, m, i, upto, o).log);
        assert(next.log[k as int].x == moderated(x));
    }
}

/// The first evaluation is at the first point of the set as it is laid out.
proof fn lemma_first_evaluation(t: Task, npt: nat, x0: Seq<F64>, o: Oracle)
    requires
        npt > 0,
    ensures
        ({
            let m = laid_out(t, npt, x0);
            let l = solved(t, npt, x0, o).log;
            l.len() > 0 && l[0].x == moderated(point_at(t, m, m.xpt[0]))
        }),
{
    reveal(begun);
    let n = t.xl.len();
    let m0 = laid_out(t, npt, x0);
    let limit = if npt < 2 * n + 1 {
        npt
    } else {
        2 * n + 1
    };
    let start = Filling { fval: m0.fval, log: Seq::empty(), info: INFO_DFT };
    lemma_filled_goes_on(t, m0, start, limit, o);
    let i0 = filled(t, m0, start, limit, o);
    let (m1, i1) = half_filled(t, npt, x0, o);
    assert(i1.log == i0.log);
    lemma_filled_goes_on(t, m1, i1, npt, o);
    let s = begun(t, npt, x0, o);
    assert(goes_on(i1.log, s.log));
    assert(s.log[0] == i1.log[0]);
    if !s.ended {
        let s1 = iterations(t, s, iteration_limit(t.set.maxfun), o);
        lemma_iterations_log(t, s, iteration_limit(t.set.maxfun), o);
        assert(s1.log[0] == s.log[0]);
        reveal(last_step);
        reveal(chosen);
    }
}

/// The first point of the set as it is laid out is the start.
proof fn lemma_start_placed(x: F64, l: F64, u: F64, rho: F64)
    requires
        l.finite(),
        u.finite(),
        x.finite(),
        rho.finite(),
        !rho.sign(),
        l.value() <= x.value() <= u.value(),
        l.value() < u.value(),
    ensures
        ({
            let s = start_of(x, l, u, rho);
            let p = placed1(s.x, zero(), l, u, s.sl, s.su);
            p.finite() && p.value() == x.value()
        }),
{
    let s = start_of(x, l, u, rho);
    lemma_fields(0);
    lemma_negation_value(x);
    lemma_negation_value(l);
    lemma_negation_value(u);
    lemma_negation_value(rho);
    lemma_add_zero(s.x);
    lemma_difference_zero(l, x);
    lemma_difference_zero(u, x);
    lemma_difference_zero(u, l);
    lemma_order_value(l, x);
    lemma_order_value(x, l);
    lemma_order_value(x, u);
    lemma_order_value(u, x);
    lemma_order_value(l, u);
    lemma_order_value(u, l);
    lemma_gap(l, x);
    lemma_gap_sign(u, x);
    lemma_gap_sign(u, l);
    lemma_gap(l, u);
    lemma_difference_zero(l, u);
    assert(!(l - x).nan() && !(u - x).nan() && !(u - l).nan() && !(l - u).nan()) by {
        reveal(sum_of);
    }
    let y = s.x + zero();
    lemma_order_value(l, y);
    lemma_order_value(y, u);
    lemma_order_value(y, l);
    lemma_order_value(u, y);
    reveal(min_of);
    reveal(max_of);
    reveal(at_most);
    reveal(below);
}

/// Where the first evaluation is.  In each coordinate it lies between the bounds that are used, no
/// farther from the given start, brought between the bounds, than half of the initial radius; on
/// a bound or at least the radius away from it; and at the start itself where that is away from
/// both bounds; all up to the roundings in the sums of the bounds with the radius.
pub proof fn lemma_starts_at<F: FnMut(&[F64]) -> F64>(
    n: usize,
    f: F,
    c: Config,
    x0: Seq<F64>,
    lower: Seq<F64>,
    upper: Seq<F64>,
    log: Seq<Asked>,
    info: i32,
    x: Seq<F64>,
    r: Outcome,
    i: int,
)
    requires
        config_valid(n, c),
        args_valid(n, c.rho_begin, x0, lower, upper),
        minimized(f, c, x0, lower, upper, log, info, x, r),
        0 <= i < n,
    ensures
        log.len() > 0,
        log[0].x.len() == n,
        log[0].x[i].finite(),
        ({
            let l = usable_lower(lower[i]);
            let u = usable_upper(upper[i]);
            let v = nearest_between(x0[i], l, u).value();
            let p = log[0].x[i].value();
            let rho = c.rho_begin.value();
            let e = start_gap(l, u, c.rho_begin);
            &&& l.value() <= p <= u.value()
            &&& 2 * (p - v) <= rho + 4 * e + 2
            &&& 2 * (v - p) <= rho + 4 * e + 2
            &&& p == l.value() || p - l.value() >= rho - e
            &&& p == u.value() || u.value() - p >= rho - e
            &&& v - l.value() > rho + e && u.value() - v > rho + e ==> p == v
        }),
{
    let t = task_of(c, lower, upper);
    let npt = c.npt as nat;
    let start = start_point(t, x0);
    let l = t.xl[i];
    let u = t.xu[i];
    let rho = c.rho_begin;
    lemma_task_roomy(n, c, x0, lower, upper);
    lemma_replayed(f, t, npt, start, log, x, (r.f, r.n_eval, info));
    lemma_first_evaluation(t, npt, start, replay(log));
    assert(leaves_room(l, u, rho));
    assert(!x0[i].nan());
    assert(!rho.sign() && !rho.zero()) by {
        reveal(below);
    }
    lemma_start_coordinate(x0[i], l, u, rho);
    lemma_marks(l, u, rho);
    lemma_order_value(zero(), rho);
    lemma_fields(0);
    lemma_start_placed(start[i], l, u, rho);
    let m = laid_out(t, npt, start);
    assert(m.xpt[0][i] == zero());
    let p = point_at(t, m, m.xpt[0]);
    lemma_moderated_finite(p[i]);
}

} // verus!
