//! How far a geometry step leads.
use vstd::arithmetic::power2::lemma2_to64;
use vstd::arithmetic::power2::lemma2_to64_rest;
use vstd::arithmetic::power2::lemma_pow2_adds;
use vstd::arithmetic::power2::lemma_pow2_pos;
use vstd::arithmetic::power2::lemma_pow2_strictly_increases;
use vstd::arithmetic::power2::pow2;
use vstd::prelude::*;

use crate::consts::half;
use crate::consts::near_floor;
use crate::consts::zero;
use crate::float::arith::lemma_fields;
use crate::float::arith::lemma_product_commutes;
use crate::float::arith::lemma_round_zero;
use crate::float::arith::lemma_square_sign;
use crate::float::arith::magnitude_of;
use crate::float::arith::product_of;
use crate::float::arith::quotient_of;
use crate::float::arith::root_of;
use crate::float::arith::sum_of;
use crate::float::arith::with_sign_of;
use crate::float::convert::unity;
use crate::float::expo;
use crate::float::near::lemma_difference_near;
use crate::float::near::lemma_negation_value;
use crate::float::near::lemma_order_value;
use crate::float::near::lemma_root_beside;
use crate::float::near::lemma_root_shortfall;
use crate::float::near::lemma_round_beside;
use crate::float::near::lemma_round_near;
use crate::float::near::lemma_round_relative;
use crate::float::near::lemma_round_shortfall;
use crate::float::near::lemma_sum_moves;
use crate::float::near::lemma_units_monotone;
use crate::float::near::top;
use crate::float::order::at_most;
use crate::float::order::below;
use crate::float::order::max_of;
use crate::float::order::min_of;
use crate::float::round::round_ratio;
use crate::float::sig;
use crate::float::units;
use crate::float::F64;
use crate::float::INF_MAG;
use crate::geometry::best_line;
use crate::geometry::best_step_number;
use crate::geometry::fallback_step;
use crate::geometry::first_real_min;
use crate::geometry::geometry_step;
use crate::geometry::largest_step;
use crate::geometry::largest_steps;
use crate::geometry::least_step;
use crate::geometry::least_steps;
use crate::geometry::lemma_first_real_max;
use crate::geometry::lemma_first_real_min;
use crate::geometry::lemma_gap;
use crate::geometry::lemma_gap_sign;
use crate::geometry::lemma_line_in_reach;
use crate::geometry::line_d;
use crate::geometry::line_hit;
use crate::geometry::line_step;
use crate::geometry::lines_of;
use crate::geometry::predictions;
use crate::geometry::usable;
use crate::geometry::Hit;
use crate::geometry::Improvement;
use crate::linalg::norm_of;
use crate::util::first_real_max;
use crate::util::in_box;
use crate::vector::all_finite;
use crate::vector::dot;
use crate::vector::dot_from;
use crate::vector::lemma_first_in_range;
use crate::vector::lemma_max_sign;
use crate::vector::magnitudes;
use crate::vector::max_abs;
use crate::vector::max_from;
use crate::vector::minus;

verus! {

/// The square of a number does not underflow.
pub open spec fn wide(z: F64) -> bool {
    units(z.mag()) * units(z.mag()) >= 1000 * unity()
}

/// The largest number is above one, and not above two to the power 1024.
proof fn lemma_top()
    ensures
        unity() <= top(),
        top() <= pow2(2098),
{
    let m = (INF_MAG - 1) as nat;
    let s = sig(m);
    lemma_fields(m);
    lemma2_to64();
    lemma2_to64_rest();
    assert(expo(m) == 2045);
    lemma_pow2_strictly_increases(1074, 2045);
    lemma_pow2_adds(53, 2045);
    assert(s * pow2(2045) >= pow2(2045)) by (nonlinear_arith)
        requires
            s >= 1,
    ;
    assert(s * pow2(2045) <= pow2(53) * pow2(2045)) by (nonlinear_arith)
        requires
            s <= pow2(53),
    ;
}

/// A sum of squares that is finite is not below any of them.
proof fn lemma_squares(z: Seq<F64>, k: nat, j: int)
    requires
        dot_from(zero(), z, z, k).finite(),
        0 <= j < k,
    ensures
        (z[j] * z[j]).finite(),
        !(z[j] * z[j]).sign(),
        !dot_from(zero(), z, z, k).sign(),
        units((z[j] * z[j]).mag()) <= units(dot_from(zero(), z, z, k).mag()),
    decreases k,
{
    let a = dot_from(zero(), z, z, (k - 1) as nat);
    let b = z[k - 1] * z[k - 1];
    reveal(sum_of);
    lemma_fields(0);
    assert(a.finite() && b.finite());
    assert(!z[k - 1].nan()) by {
        reveal(product_of);
    }
    lemma_square_sign(z[k - 1]);
    if k > 1 {
        lemma_squares(z, (k - 1) as nat, if j < k - 1 { j } else { 0 });
    }
    let s = units(a.mag()) + units(b.mag());
    lemma_round_beside(s, 1, a.mag());
    lemma_round_beside(s, 1, b.mag());
    lemma_units_monotone(a.mag(), (a + b).mag());
    lemma_units_monotone(b.mag(), (a + b).mag());
}

/// The distance is not shorter than the step in any coordinate, up to a hundredth, if the square
/// of some coordinate does not underflow.
proof fn lemma_distance(z: Seq<F64>, i: int, j: int)
    requires
        dot(z, z).finite(),
        0 <= i < z.len(),
        0 <= j < z.len(),
        wide(z[j]),
    ensures
        root_of(dot(z, z)).finite(),
        !root_of(dot(z, z)).sign(),
        0 < units(root_of(dot(z, z)).mag()),
        99 * units(z[i].mag()) <= 100 * units(root_of(dot(z, z)).mag()),
{
    let u = unity();
    let k: int = if wide(z[i]) {
        i
    } else {
        j
    };
    let a = units(z[i].mag());
    let b = units(z[k].mag());
    assert(a <= b) by {
        if a > b {
            assert(a * a >= b * b) by (nonlinear_arith)
                requires
                    a > b,
            ;
        }
    }
    lemma_squares(z, z.len(), k);
    let q = dot(z, z);
    let p = units((z[k] * z[k]).mag());
    let s = units(q.mag());
    reveal(product_of);
    reveal(root_of);
    lemma_pow2_pos(1074);
    lemma2_to64();
    lemma2_to64_rest();
    lemma_pow2_strictly_increases(60, 1074);
    lemma_fields(0);
    lemma_round_shortfall(b * b, u);
    let n = s * u;
    assert(p * u <= n) by (nonlinear_arith)
        requires
            p <= s,
            n == s * u,
    ;
    assert(998 * (b * b) <= 1000 * n);
    lemma_units_monotone(q.mag(), (INF_MAG - 1) as nat);
    lemma_top();
    assert(s > 0) by (nonlinear_arith)
        requires
            n == s * u,
            n > 0,
    ;
    assert(!q.zero());
    assert(n <= top() * top()) by (nonlinear_arith)
        requires
            n == s * u,
            s <= top(),
            u <= top(),
    ;
    lemma_root_beside(n, (INF_MAG - 1) as nat);
    lemma_root_shortfall(n);
    let y = units(root_of(q).mag());
    assert(9801 * (b * b) <= 10000 * (y * y));
    assert(99 * b <= 100 * y) by (nonlinear_arith)
        requires
            9801 * (b * b) <= 10000 * (y * y),
    ;
    assert(b > 0) by (nonlinear_arith)
        requires
            b * b >= 1000 * u,
            u > 0,
    ;
}

/// The radius is not so large that a step of that length overflows, nor so small beside the
/// distance that the step underflows.
pub open spec fn in_scale(delbar: F64, distance: F64) -> bool {
    &&& delbar.finite()
    &&& !delbar.sign()
    &&& 4 * units(delbar.mag()) <= top()
    &&& 200 * (units(distance.mag()) + unity()) <= units(delbar.mag()) * unity()
}

/// A step within the reach of the trust region changes a coordinate by the radius at most, up to
/// a twentieth.
proof fn lemma_reach(delbar: F64, distance: F64, t: F64, z: F64)
    requires
        in_scale(delbar, distance),
        distance.finite(),
        !distance.sign(),
        0 < units(distance.mag()),
        (delbar / distance).finite(),
        t.within(-(delbar / distance), delbar / distance),
        z.finite(),
        99 * units(z.mag()) <= 100 * units(distance.mag()),
    ensures
        (t * z).finite(),
        100 * units((t * z).mag()) <= 105 * units(delbar.mag()),
{
    let u = unity();
    let r = delbar / distance;
    let d = units(delbar.mag());
    let y = units(distance.mag());
    let x = units(r.mag());
    let a = units(t.mag());
    let b = units(z.mag());
    let du = d * u;
    lemma_fields(0);
    lemma_pow2_pos(1074);
    assert(!distance.zero());
    assert(!r.sign() && r.mag() == round_ratio(du, y)) by {
        reveal(quotient_of);
    }
    lemma_round_relative(du, y);
    assert(t.mag() <= r.mag()) by {
        reveal(at_most);
        lemma_negation_value(r);
    }
    lemma_units_monotone(t.mag(), r.mag());
    let n = a * b;
    assert(99 * n <= 100 * (x * y)) by (nonlinear_arith)
        requires
            n == a * b,
            a <= x,
            99 * b <= 100 * y,
    ;
    assert(100 * n <= 102 * du);
    assert(n <= top() * u) by (nonlinear_arith)
        requires
            100 * n <= 102 * du,
            du == d * u,
            4 * d <= top(),
    ;
    reveal(product_of);
    lemma_round_near(n, u);
    lemma_round_relative(n, u);
    let p = units((t * z).mag());
    assert(100 * (p * u) <= 105 * du);
    assert(100 * p <= 105 * d) by (nonlinear_arith)
        requires
            100 * (p * u) <= 105 * du,
            du == d * u,
            u > 0,
    ;
}

/// A coordinate that changes by a number and is put between bounds on both sides of it changes by
/// three times that number at most.
proof fn lemma_moved(v: F64, p: F64, lo: F64, hi: F64, d: nat)
    requires
        v.finite(),
        p.finite(),
        lo <= v,
        v <= hi,
        100 * units(p.mag()) <= 105 * d,
        200 <= d,
        units(v.mag()) + 4 * d <= top(),
    ensures
        ({
            let c = max_of(min_of(v + p, hi), lo);
            &&& (c - v).finite()
            &&& units((c - v).mag()) <= 3 * d
        }),
{
    let w = v + p;
    let c = max_of(min_of(w, hi), lo);
    let s = v.value() + p.value();
    lemma_fields(0);
    assert(w.finite()) by {
        reveal(sum_of);
        if s < 0 {
            lemma_round_near((-s) as nat, 1);
        } else {
            lemma_round_near(s as nat, 1);
        }
    }
    lemma_sum_moves(v, p);
    assert(c.finite() && (v <= c && c <= w || w <= c && c <= v || c.key() == v.key())) by {
        reveal(max_of);
        reveal(min_of);
        reveal(at_most);
        reveal(below);
    }
    lemma_order_value(v, c);
    lemma_order_value(c, v);
    lemma_order_value(w, c);
    lemma_order_value(c, w);
    assert(c.key() == v.key() ==> c.value() == v.value());
    let g = c.value() - v.value();
    lemma_difference_near(c, v);
    lemma_negation_value(v);
    reveal(sum_of);
    if g < 0 {
        lemma_round_relative((-g) as nat, 1);
    } else if g > 0 {
        lemma_round_relative(g as nat, 1);
    }
}

/// The largest step runs into a bound only where that lies within the reach of the trust region.
proof fn lemma_largest_hit(
    xopt: Seq<F64>,
    x: Seq<F64>,
    sl: Seq<F64>,
    su: Seq<F64>,
    reach: F64,
    i: int,
)
    requires
        !reach.sign(),
        0 <= i < x.len() <= usize::MAX,
    ensures
        ({
            let m = magnitude_of(x[i] - xopt[i]);
            let hit = largest_step(xopt, x, sl, su, reach).1;
            &&& hit == Hit::Lower(i as usize) ==> sl[i] - xopt[i] > (-m) * reach
            &&& hit == Hit::Upper(i as usize) ==> su[i] - xopt[i] < m * reach
        }),
{
    let t = largest_steps(xopt, x, sl, su, reach);
    let hit = largest_step(xopt, x, sl, su, reach).1;
    if hit != Hit::Nothing {
        lemma_first_real_min(t, t.len());
        let b = first_real_min(t, t.len()).unwrap();
        let j = choose|j: int| 0 <= j < t.len() && #[trigger] t[j] < reach;
        assert(!(t[j] < t[b]));
        reveal(below);
        assert(t[b] < reach);
        reveal(with_sign_of);
        lemma_negation_value(x[b] - xopt[b]);
        assert(t[b] != reach);
    }
}

/// The least step runs into a bound only where that lies within the reach of the trust region.
proof fn lemma_least_hit(
    xopt: Seq<F64>,
    x: Seq<F64>,
    sl: Seq<F64>,
    su: Seq<F64>,
    reach: F64,
    i: int,
)
    requires
        !reach.sign(),
        0 <= i < x.len() <= usize::MAX,
    ensures
        ({
            let m = magnitude_of(x[i] - xopt[i]);
            let hit = least_step(xopt, x, sl, su, reach).1;
            &&& hit == Hit::Lower(i as usize) ==> sl[i] - xopt[i] > (-m) * reach
            &&& hit == Hit::Upper(i as usize) ==> su[i] - xopt[i] < m * reach
        }),
{
    let t = least_steps(xopt, x, sl, su, reach);
    let hit = least_step(xopt, x, sl, su, reach).1;
    if hit != Hit::Nothing {
        lemma_first_real_max(t, t.len());
        let b = first_real_max(t, t.len()).unwrap();
        let j = choose|j: int| 0 <= j < t.len() && #[trigger] t[j] > -reach;
        assert(!(t[j] > t[b]));
        reveal(below);
        assert(t[b] > -reach);
        reveal(with_sign_of);
        lemma_negation_value(x[b] - xopt[b]);
        lemma_negation_value(reach);
    }
}

/// A number between zero and a finite number is not larger than that.
proof fn lemma_nearer(a: F64, b: F64)
    requires
        b.finite(),
        a <= zero() && a > b || zero() <= a && a < b,
    ensures
        a.finite(),
        units(a.mag()) <= units(b.mag()),
{
    reveal(at_most);
    reveal(below);
    lemma_units_monotone(a.mag(), b.mag());
}

/// The distance of point `k` from the best point can be measured: its square does not overflow,
/// the square of some coordinate of the difference does not underflow, and the quotient of the
/// radius by the distance does not overflow.
pub open spec fn measurable(g: Improvement, k: int) -> bool {
    let z = minus(g.xpt[k], g.xopt());
    &&& g.distsq()[k].finite()
    &&& exists|j: int| 0 <= j < z.len() && wide(#[trigger] z[j])
    &&& (g.delbar / root_of(g.distsq()[k])).finite()
}

/// The step on a line changes no coordinate by more than three times the radius: the step itself
/// is not longer than the radius up to a twentieth, and adding it to the best point at most
/// doubles what it changes.
pub proof fn lemma_line_length(g: Improvement, i: int)
    requires
        in_box(g.xopt(), g.sl, g.su),
        0 <= i < g.sl.len() <= usize::MAX,
        g.xpt.len() > 0,
        g.xopt()[i].finite(),
        200 <= units(g.delbar.mag()),
        units(g.xopt()[i].mag()) + 4 * units(g.delbar.mag()) <= top(),
        ({
            let k = best_line(g, best_step_number(g));
            &&& g.xpt[k].len() == g.xopt().len()
            &&& (g.xpt[k][i] - g.xopt()[i]).finite()
            &&& g.skipped(k) || measurable(g, k) && in_scale(g.delbar, root_of(g.distsq()[k]))
        }),
    ensures
        line_d(g)[i].finite(),
        units(line_d(g)[i].mag()) <= 3 * units(g.delbar.mag()),
{
    let isq = best_step_number(g);
    let k = best_line(g, isq);
    let t = line_step(lines_of(g)[k], isq);
    let hit = line_hit(lines_of(g)[k], isq);
    let xo = g.xopt()[i];
    let x = g.xpt[k];
    let z = minus(x, g.xopt());
    let d = units(g.delbar.mag());
    lemma_first_in_range(predictions(g, isq), g.xpt.len());
    assert(xo.within(g.sl[i], g.su[i]));
    lemma_fields(0);
    if g.skipped(k) {
        assert((t * z[i]).zero()) by {
            reveal(product_of);
            lemma_pow2_pos(1074);
            lemma_round_zero(unity());
            assert(units(0) * units(z[i].mag()) == 0) by (nonlinear_arith)
                requires
                    units(0) == 0,
            ;
        }
        lemma_moved(xo, t * z[i], g.sl[i], g.su[i], d);
    } else {
        let y = root_of(g.distsq()[k]);
        let reach = g.delbar / y;
        let j = choose|j: int| 0 <= j < z.len() && wide(#[trigger] z[j]);
        lemma_distance(z, i, j);
        assert(!reach.sign()) by {
            reveal(quotient_of);
        }
        assert(zero() <= reach) by {
            reveal(at_most);
        }
        lemma_line_in_reach(g, k, isq);
        lemma_reach(g.delbar, y, t, z[i]);
        lemma_moved(xo, t * z[i], g.sl[i], g.su[i], d);
        lemma_largest_hit(g.xopt(), x, g.sl, g.su, reach, i);
        lemma_least_hit(g.xopt(), x, g.sl, g.su, reach, i);
        let m = magnitude_of(z[i]);
        assert(reach.within(-reach, reach)) by {
            reveal(at_most);
            lemma_negation_value(reach);
        }
        assert(m.finite() && m.mag() == z[i].mag() && !m.sign()) by {
            reveal(magnitude_of);
        }
        lemma_negation_value(m);
        lemma_product_commutes(m, reach);
        lemma_product_commutes(-m, reach);
        lemma_reach(g.delbar, y, reach, m);
        lemma_reach(g.delbar, y, reach, -m);
        if hit == Hit::Lower(i as usize) {
            assert(g.sl[i] - xo > (-m) * reach);
            assert(!(g.sl[i] - xo).nan()) by {
                reveal(below);
            }
            lemma_gap(g.sl[i], xo);
            lemma_nearer(g.sl[i] - xo, (-m) * reach);
        } else if hit == Hit::Upper(i as usize) {
            assert(g.su[i] - xo < m * reach);
            assert(!(g.su[i] - xo).nan()) by {
                reveal(below);
            }
            lemma_gap_sign(g.su[i], xo);
            lemma_nearer(g.su[i] - xo, m * reach);
        }
    }
}

/// The largest one of numbers is not below any that is not NaN.
pub(crate) proof fn lemma_max_above(acc: F64, x: Seq<F64>, k: nat, j: int)
    requires
        !acc.nan(),
        !acc.sign(),
        0 <= j < k <= x.len(),
        !x[j].nan(),
    ensures
        !max_from(acc, x, k).nan(),
        x[j] <= max_from(acc, x, k),
    decreases k,
{
    reveal(max_of);
    reveal(at_most);
    reveal(below);
    if j < k - 1 {
        lemma_max_above(acc, x, (k - 1) as nat, j);
    } else {
        lemma_max_sign(acc, x, (k - 1) as nat);
    }
}

/// The step towards point `knew` changes no coordinate by more than the radius, up to a
/// twentieth.
pub proof fn lemma_fallback_length(g: Improvement, i: int)
    requires
        0 <= g.knew < g.xpt.len(),
        0 <= i < g.xpt[g.knew].len(),
        all_finite(minus(g.xpt[g.knew], g.xopt())),
        measurable(g, g.knew),
        in_scale(g.delbar, root_of(g.distsq()[g.knew])),
    ensures
        fallback_step(g)[i].finite(),
        100 * units(fallback_step(g)[i].mag()) <= 105 * units(g.delbar.mag()),
{
    let v = minus(g.xpt[g.knew], g.xopt());
    let j = choose|j: int| 0 <= j < v.len() && wide(#[trigger] v[j]);
    let y = root_of(dot(v, v));
    let reach = g.delbar / y;
    lemma_fields(0);
    lemma_distance(v, i, j);
    assert(!(y <= zero())) by {
        reveal(at_most);
    }
    assert(!(max_abs(v) <= zero())) by {
        let m = magnitudes(v);
        assert(m[j] == magnitude_of(v[j]));
        assert(v[j].finite() && m[j].mag() == v[j].mag() && !m[j].sign()) by {
            reveal(magnitude_of);
        }
        if v[j].mag() == 0 {
            lemma_pow2_pos(1074);
            assert(units(0) * units(0) == 0) by (nonlinear_arith)
                requires
                    units(0) == 0,
            ;
        }
        lemma_max_above(zero(), m, m.len(), j);
        reveal(at_most);
    }
    assert(norm_of(v) == y);
    assert(!reach.sign()) by {
        reveal(quotient_of);
    }
    let c = min_of(half(), reach);
    assert(c.within(-reach, reach)) by {
        reveal(at_most);
        reveal(below);
        reveal(min_of);
        lemma_negation_value(reach);
    }
    lemma_reach(g.delbar, y, c, v[i]);
    lemma_product_commutes(c, v[i]);
}

/// A radius above the floor is not small beside any distance.
proof fn lemma_far_scale(delbar: F64, distance: F64)
    requires
        delbar.finite(),
        delbar > near_floor(),
        4 * units(delbar.mag()) <= top(),
        distance.finite(),
    ensures
        in_scale(delbar, distance),
        200 <= units(delbar.mag()),
{
    let f = near_floor();
    let u = unity();
    let d = units(delbar.mag());
    let y = units(distance.mag());
    reveal(below);
    lemma2_to64();
    lemma2_to64_rest();
    lemma_top();
    lemma_units_monotone(f.mag(), delbar.mag());
    lemma_units_monotone(distance.mag(), (INF_MAG - 1) as nat);
    assert(expo(f.mag()) == 1015);
    lemma_fields(f.mag());
    let s = sig(f.mag());
    assert(s * pow2(1015) >= pow2(52) * pow2(1015)) by (nonlinear_arith)
        requires
            s >= pow2(52),
    ;
    lemma_pow2_adds(52, 1015);
    lemma_pow2_adds(1067, 1074);
    lemma_pow2_adds(2098, 43);
    lemma_pow2_pos(2098);
    lemma_pow2_strictly_increases(1074, 2098);
    lemma_pow2_strictly_increases(8, 1067);
    assert(d * u >= pow2(1067) * u) by (nonlinear_arith)
        requires
            d >= pow2(1067),
    ;
}

/// A geometry step with a radius above the floor changes no coordinate by more than three times
/// the radius, where the distances can be measured.
pub proof fn lemma_geometry_length(g: Improvement, i: int)
    requires
        in_box(g.xopt(), g.sl, g.su),
        0 <= i < g.sl.len() <= usize::MAX,
        0 <= g.knew < g.xpt.len(),
        g.delbar.finite(),
        g.delbar > near_floor(),
        g.xopt()[i].finite(),
        units(g.xopt()[i].mag()) + 4 * units(g.delbar.mag()) <= top(),
        forall|k: int|
            0 <= k < g.xpt.len() ==> (#[trigger] g.xpt[k]).len() == g.xopt().len() && all_finite(
                minus(g.xpt[k], g.xopt()),
            ) && (k == g.kopt || measurable(g, k)),
        g.knew != g.kopt,
    ensures
        geometry_step(g)[i].finite(),
        units(geometry_step(g)[i].mag()) <= 3 * units(g.delbar.mag()),
{
    let isq = best_step_number(g);
    let k = best_line(g, isq);
    lemma_first_in_range(predictions(g, isq), g.xpt.len());
    assert(g.xpt[k].len() == g.xopt().len());
    assert(g.xpt[g.knew].len() == g.xopt().len());
    assert(minus(g.xpt[k], g.xopt())[i].finite());
    lemma_far_scale(g.delbar, zero());
    if usable(g) {
        if !g.skipped(k) {
            let z = minus(g.xpt[k], g.xopt());
            let j = choose|j: int| 0 <= j < z.len() && wide(#[trigger] z[j]);
            lemma_distance(z, i, j);
            lemma_far_scale(g.delbar, root_of(g.distsq()[k]));
        }
        lemma_line_length(g, i);
    } else {
        let z = minus(g.xpt[g.knew], g.xopt());
        let j = choose|j: int| 0 <= j < z.len() && wide(#[trigger] z[j]);
        lemma_distance(z, i, j);
        lemma_far_scale(g.delbar, root_of(g.distsq()[g.knew]));
        lemma_fallback_length(g, i);
    }
}

} // verus!
