//! Where the grid of an interval and the maximizer on it lie.
use vstd::arithmetic::power2::lemma2_to64;
use vstd::arithmetic::power2::lemma2_to64_rest;
use vstd::arithmetic::power2::lemma_pow2_adds;
use vstd::arithmetic::power2::lemma_pow2_pos;
use vstd::arithmetic::power2::lemma_pow2_unfold;
use vstd::arithmetic::power2::pow2;
use vstd::prelude::*;

use crate::consts::three_quarters;
use crate::consts::two;
use crate::consts::zero;
use crate::float::arith::lemma_fields;
use crate::float::arith::lemma_round_zero;
use crate::float::arith::magnitude_of;
use crate::float::arith::product_of;
use crate::float::arith::quotient_of;
use crate::float::arith::sum_of;
use crate::float::convert::count_of;
use crate::float::convert::unity;
use crate::float::expo;
use crate::float::near::lemma_difference_near;
use crate::float::near::lemma_negation_value;
use crate::float::near::lemma_order_value;
use crate::float::near::lemma_round_beside;
use crate::float::near::lemma_round_multiple;
use crate::float::near::lemma_round_relative;
use crate::float::near::lemma_sum_beside;
use crate::float::near::lemma_units_monotone;
use crate::float::near::top;
use crate::float::order::at_most;
use crate::float::order::below;
use crate::float::round::round_ratio;
use crate::float::sig;
use crate::float::units;
use crate::float::F64;
use crate::float::INF_MAG;
use crate::util::first_real_max;
use crate::util::grid;
use crate::util::grid_point;
use crate::util::lemma_first_real_max_range;
use crate::util::peak;
use crate::util::peak_step;

verus! {

/// The interval from `lb` to `ub` is long enough for a grid of `n` points whose steps are not
/// lost in roundings, and short enough for them not to overflow.
pub open spec fn measured(lb: F64, ub: F64, n: nat) -> bool {
    &&& 3 <= n <= 0x10_0000
    &&& lb.finite()
    &&& ub.finite()
    &&& 32 * (n * n) <= ub.value() - lb.value()
    &&& (ub.value() - lb.value()) * n <= top()
}

/// Small natural numbers are numbers.
proof fn lemma_count(k: nat)
    requires
        k <= 0x10_0000,
    ensures
        count_of(k).finite(),
        !count_of(k).sign(),
        units(count_of(k).mag()) == k * unity(),
        count_of(k).value() == k * unity(),
        unity() > 0,
{
    reveal(count_of);
    lemma_round_multiple(k, 1074);
    lemma_pow2_pos(1074);
}

/// Roundings do not make up for a step of the grid: the multiple `p` by `i` of the part `t` of the
/// length `d`, rounded from `w`, is not above `w`.
proof fn lemma_shrinks(w: nat, d: nat, t: nat, p: nat, n: nat, i: nat)
    requires
        0x4000_0000 * d <= 0x4000_0001 * w + 0x4000_0000,
        0x4000_0000 * (t * n) <= 0x4000_0001 * d + 0x4000_0000 * n,
        i + 1 <= n,
        2 <= n <= 0x10_0000,
        16 * (n * n) <= w,
    ensures
        t * i <= w,
        0x4000_0000 * p <= 0x4000_0001 * (t * i) + 0x4000_0000 ==> p <= w,
{
    let a = t * n;
    assert(0x1000_0000_0000_0000 * a <= 0x1000_0000_8000_0001 * w + 0x1000_0000_4000_0000
        + 0x1000_0000_0000_0000 * n);
    assert(0x1000_0000_0000_0000 * (a * i) <= 0x1000_0000_8000_0001 * (w * i)
        + 0x1000_0000_4000_0000 * i + 0x1000_0000_0000_0000 * (n * i)) by (nonlinear_arith)
        requires
            0x1000_0000_0000_0000 * a <= 0x1000_0000_8000_0001 * w + 0x1000_0000_4000_0000
                + 0x1000_0000_0000_0000 * n,
    ;
    assert(w * i <= w * n - w) by (nonlinear_arith)
        requires
            i + 1 <= n,
    ;
    assert(n * i <= n * n) by (nonlinear_arith)
        requires
            i <= n,
    ;
    assert(n <= n * n) by (nonlinear_arith)
        requires
            n >= 1,
    ;
    assert(w * n <= 0x10_0000 * w) by (nonlinear_arith)
        requires
            n <= 0x10_0000,
    ;
    let b = t * i;
    assert(a * i == b * n) by (nonlinear_arith)
        requires
            a == t * n,
            b == t * i,
    ;
    assert(b * n <= w * n);
    assert(b <= w) by (nonlinear_arith)
        requires
            b * n <= w * n,
            n > 0,
    ;
    if 0x4000_0000 * p <= 0x4000_0001 * b + 0x4000_0000 {
        assert(0x4000_0000 * (p * n) <= 0x4000_0001 * (b * n) + 0x4000_0000 * n)
            by (nonlinear_arith)
            requires
                0x4000_0000 * p <= 0x4000_0001 * b + 0x4000_0000,
        ;
        assert(p * n <= w * n);
        assert(p <= w) by (nonlinear_arith)
            requires
                p * n <= w * n,
                n > 0,
        ;
    }
}

/// Roundings do not make up for a quarter of a step of the grid.
proof fn lemma_peak_shrinks(w: nat, d: nat, a: nat, q: nat, n: nat)
    requires
        0x4000_0000 * d <= 0x4000_0001 * w + 0x4000_0000,
        4 * 0x4000_0000 * a <= 0x4000_0001 * (d * ((4 * n - 1) as nat)) + 4 * 0x4000_0000,
        0x4000_0000 * (q * n) <= 0x4000_0001 * a + 0x4000_0000 * n,
        2 <= n <= 0x10_0000,
        16 * (n * n) <= w,
    ensures
        q <= w,
{
    let c = (4 * n - 1) as nat;
    assert(0x4000_0000 * (d * c) <= 0x4000_0001 * (w * c) + 0x4000_0000 * c) by (nonlinear_arith)
        requires
            0x4000_0000 * d <= 0x4000_0001 * w + 0x4000_0000,
    ;
    assert(w * c == 4 * (w * n) - w) by (nonlinear_arith)
        requires
            c == 4 * n - 1,
    ;
    assert(w * n <= 0x10_0000 * w) by (nonlinear_arith)
        requires
            n <= 0x10_0000,
    ;
    assert(2 * n <= n * n) by (nonlinear_arith)
        requires
            n >= 2,
    ;
    let x = d * c;
    let y = q * n;
    let z = w * c;
    assert(0x1_0000_0000 * a <= 0x4000_0001 * x + 0x1_0000_0000);
    assert(0x4000_0000 * y <= 0x4000_0001 * a + 0x4000_0000 * n);
    assert(0x4000_0001 * (0x1_0000_0000 * a) <= 0x1000_0000_8000_0001 * x
        + 0x4000_0001_0000_0000);
    assert(0x4000_0000_0000_0000 * y <= 0x1000_0000_8000_0001 * x + 0x4000_0001_0000_0000
        + 0x4000_0000_0000_0000 * n);
    assert(0x4000_0000 * (0x1000_0000_8000_0001 * x) <= 0x1000_0000_8000_0001 * (0x4000_0001 * z)
        + 0x1000_0000_8000_0001 * (0x4000_0000 * c));
    assert(0x4000_0000 * (0x4000_0000_0000_0000 * y) <= 0x4000_0000 * (0x4000_0000_0000_0000 * (w
        * n)));
    assert(y <= w * n);
    assert(q <= w) by (nonlinear_arith)
        requires
            q * n <= w * n,
            n > 0,
    ;
}

/// One part in `n` of the positive number `d`.
proof fn lemma_part(d: F64, n: nat)
    requires
        d.finite(),
        !d.sign(),
        !d.zero(),
        1 <= n <= 0x10_0000,
    ensures
        ({
            let t = d / count_of(n);
            &&& t.finite()
            &&& !t.sign()
            &&& 0x4000_0000 * (units(t.mag()) * n) <= 0x4000_0001 * units(d.mag()) + 0x4000_0000 * n
        }),
{
    reveal(quotient_of);
    lemma_count(n);
    let u = unity();
    let x = units(d.mag());
    let b = n * u;
    assert(b > 0) by (nonlinear_arith)
        requires
            n >= 1,
            u > 0,
            b == n * u,
    ;
    lemma_fields(count_of(n).mag());
    assert(u <= b) by (nonlinear_arith)
        requires
            n >= 1,
            b == n * u,
    ;
    assert(x * u <= x * b) by (nonlinear_arith)
        requires
            u <= b,
    ;
    lemma_round_beside(x * u, b, d.mag());
    lemma_round_relative(x * u, b);
    let t = units(round_ratio(x * u, b));
    let f: nat = 0x4000_0000;
    let g: nat = 0x4000_0001;
    assert(f * (t * n) <= g * x + f * n) by (nonlinear_arith)
        requires
            f * (t * b) <= g * (x * u) + f * b,
            b == n * u,
            u > 0,
    ;
}

/// A number times a multiple of one.
proof fn lemma_multiple(t: F64, c: F64, k: nat)
    requires
        t.finite(),
        c.finite(),
        units(c.mag()) == k * unity(),
        units(t.mag()) * k <= top(),
    ensures
        (t * c).finite(),
        (t * c).sign() == (t.sign() != c.sign()),
        0x4000_0000 * units((t * c).mag()) <= 0x4000_0001 * (units(t.mag()) * k) + 0x4000_0000,
{
    reveal(product_of);
    lemma_pow2_pos(1074);
    let u = unity();
    let x = units(t.mag());
    let n = x * (k * u);
    assert(n == (x * k) * u) by (nonlinear_arith)
        requires
            n == x * (k * u),
    ;
    assert(n <= top() * u) by (nonlinear_arith)
        requires
            n == (x * k) * u,
            x * k <= top(),
    ;
    lemma_round_beside(n, u, (INF_MAG - 1) as nat);
    lemma_round_relative(n, u);
    let p = units(round_ratio(n, u));
    let f: nat = 0x4000_0000;
    let g: nat = 0x4000_0001;
    assert(f * p <= g * (x * k) + f) by (nonlinear_arith)
        requires
            f * (p * u) <= g * n + f * u,
            n == (x * k) * u,
            u > 0,
    ;
}

/// The length of a measured interval.
proof fn lemma_length(lb: F64, ub: F64, n: nat)
    requires
        measured(lb, ub, n),
    ensures
        ({
            let d = ub - lb;
            let w = (ub.value() - lb.value()) as nat;
            &&& d.finite()
            &&& !d.sign()
            &&& !d.zero()
            &&& w <= top()
            &&& 16 * (((n - 1) as nat) * ((n - 1) as nat)) <= w
            &&& 0x4000_0000 * units(d.mag()) <= 0x4000_0001 * w + 0x4000_0000
        }),
        lb < ub,
        lb <= ub,
        !(ub <= lb),
{
    let w = (ub.value() - lb.value()) as nat;
    assert(n * n >= 9) by (nonlinear_arith)
        requires
            n >= 3,
    ;
    assert(w <= w * n) by (nonlinear_arith)
        requires
            n >= 1,
    ;
    let m = (n - 1) as nat;
    assert(m * m <= n * n) by (nonlinear_arith)
        requires
            m <= n,
    ;
    lemma_difference_near(ub, lb);
    lemma_order_value(lb, ub);
    lemma_order_value(ub, lb);
    reveal(sum_of);
    lemma_negation_value(lb);
    lemma2_to64();
    lemma_fields(1);
    assert(units(1) == 1) by {
        assert(sig(1) == 1 && expo(1) == 0);
    }
    lemma_round_beside(w, 1, 1);
    lemma_round_relative(w, 1);
}

/// The points of the grid on a measured interval lie in the interval.
pub proof fn lemma_grid_inside(lb: F64, ub: F64, n: nat, i: int)
    requires
        measured(lb, ub, n),
        0 <= i < n,
    ensures
        grid_point(lb, ub, n, i).within(lb, ub),
{
    lemma_length(lb, ub, n);
    lemma_order_value(lb, lb);
    lemma_order_value(ub, ub);
    let m = (n - 1) as nat;
    let w = (ub.value() - lb.value()) as nat;
    if 0 < i < m {
        let k = i as nat;
        lemma_count(k);
        lemma_count(m);
        if magnitude_of(lb) <= magnitude_of(ub) && magnitude_of(ub) <= magnitude_of(lb) {
            lemma_opposite_inside(lb, ub, n, i);
        } else {
            let d = ub - lb;
            let t = d / count_of(m);
            lemma_part(d, m);
            lemma_shrinks(w, units(d.mag()), units(t.mag()), 0, m, k);
            lemma_multiple(t, count_of(k), k);
            let p = t * count_of(k);
            lemma_shrinks(w, units(d.mag()), units(t.mag()), units(p.mag()), m, k);
            lemma_sum_beside(lb, p, lb);
            lemma_sum_beside(lb, p, ub);
        }
    }
}

/// The points of the grid between opposite ends lie between them.
proof fn lemma_opposite_inside(lb: F64, ub: F64, n: nat, i: int)
    requires
        measured(lb, ub, n),
        0 < i < n - 1,
        magnitude_of(lb) <= magnitude_of(ub),
        magnitude_of(ub) <= magnitude_of(lb),
    ensures
        grid_point(lb, ub, n, i).within(lb, ub),
{
    lemma_length(lb, ub, n);
    reveal(at_most);
    reveal(below);
    reveal(magnitude_of);
    let m = (n - 1) as nat;
    let k = i as nat;
    let v = units(ub.mag());
    assert(lb.mag() == ub.mag() && lb.sign() && !ub.sign());
    assert(16 * (m * m) <= v) by {
        assert(m * m <= n * n) by (nonlinear_arith)
            requires
                m <= n,
        ;
    }
    lemma_fields(ub.mag());
    lemma_fields(0);
    if !(m % 2 == 0 && i == m as int / 2) {
        lemma_count(k);
        lemma_count(m);
        let t = ub / count_of(m);
        lemma_part(ub, m);
        let c = two() * count_of(k) - count_of(m);
        lemma_offset(k, m);
        let j: nat = if 2 * k >= m {
            (2 * k - m) as nat
        } else {
            (m - 2 * k) as nat
        };
        lemma_shrinks(v, v, units(t.mag()), 0, m, j);
        lemma_multiple(t, c, j);
        let p = t * c;
        lemma_shrinks(v, v, units(t.mag()), units(p.mag()), m, j);
        lemma_units_monotone(p.mag(), ub.mag());
    }
}

/// Twice a small natural number minus another one is exact.
proof fn lemma_offset(k: nat, m: nat)
    requires
        k <= 0x10_0000,
        m <= 0x10_0000,
    ensures
        ({
            let c = two() * count_of(k) - count_of(m);
            &&& c.finite()
            &&& units(c.mag()) == (if 2 * k >= m {
                (2 * k - m) as nat
            } else {
                (m - 2 * k) as nat
            }) * unity()
        }),
{
    lemma_count(k);
    lemma_count(m);
    let u = unity();
    lemma_round_multiple(2 * k, 1074);
    let e = round_ratio((2 * k) * u, 1);
    let b = two() * count_of(k);
    assert(b.finite() && !b.sign() && units(b.mag()) == (2 * k) * u) by {
        reveal(product_of);
        lemma2_to64();
        lemma2_to64_rest();
        lemma_pow2_adds(52, 1023);
        lemma_pow2_unfold(1075);
        assert(sig(two().mag()) == pow2(52));
        assert(expo(two().mag()) == 1023);
        assert(units(two().mag()) == 2 * u);
        assert((2 * u) * (k * u) == ((2 * k) * u) * u) by (nonlinear_arith);
        lemma_round_beside(((2 * k) * u) * u, u, e);
    }
    reveal(sum_of);
    lemma_negation_value(count_of(m));
    let s = b.value() - count_of(m).value();
    assert(s == (2 * k - m) * u) by (nonlinear_arith)
        requires
            s == (2 * k) * u - m * u,
    ;
    lemma_fields(0);
    if 2 * k > m {
        lemma_round_multiple((2 * k - m) as nat, 1074);
        assert(s > 0) by (nonlinear_arith)
            requires
                s == (2 * k - m) * u,
                2 * k > m,
                u > 0,
        ;
    } else if 2 * k < m {
        lemma_round_multiple((m - 2 * k) as nat, 1074);
        assert(-s == (m - 2 * k) * u) by (nonlinear_arith)
            requires
                s == (2 * k - m) * u,
        ;
        assert(s < 0) by (nonlinear_arith)
            requires
                s == (2 * k - m) * u,
                2 * k < m,
                u > 0,
        ;
    } else {
        assert(s == 0) by (nonlinear_arith)
            requires
                s == (2 * k - m) * u,
                2 * k == m,
        ;
    }
}

/// The parabola through the grid maximum and its neighbours has its peak near the grid maximum:
/// three quarters of a step of the grid away at most.  In exact arithmetic it is half a step.
pub open spec fn peak_near(f: Seq<F64>) -> bool {
    match first_real_max(f, f.len()) {
        None => true,
        Some(k) => 0 < k < f.len() - 1 && peak_step(f, k).finite() ==> magnitude_of(
            peak_step(f, k),
        ) <= three_quarters(),
    }
}

/// The maximizer on a measured interval lies in the interval, if the parabola has its peak near
/// the grid maximum.
pub proof fn lemma_peak_inside(lb: F64, ub: F64, n: nat, f: Seq<F64>)
    requires
        measured(lb, ub, n),
        f.len() == n,
        peak_near(f),
    ensures
        peak(lb, ub, grid(lb, ub, n), f).within(lb, ub),
{
    lemma_length(lb, ub, n);
    lemma_order_value(lb, lb);
    lemma_order_value(ub, ub);
    lemma_first_real_max_range(f, n);
    if let Some(k) = first_real_max(f, n) {
        if 0 < k < n - 1 {
            let step = peak_step(f, k);
            if step.finite() && magnitude_of(step) > zero() {
                lemma_parabola_inside(lb, ub, n, k, step);
            } else {
                lemma_grid_inside(lb, ub, n, k);
            }
        }
    }
}

/// A place between the ends of the grid, in steps of the grid.
proof fn lemma_place(n: nat, k: int, step: F64)
    requires
        3 <= n <= 0x10_0000,
        0 < k < n - 1,
        step.finite(),
        magnitude_of(step) <= three_quarters(),
    ensures
        ({
            let c = count_of(k as nat) + step;
            &&& c.finite()
            &&& !c.sign()
            &&& 4 * units(c.mag()) <= ((4 * (n - 1) - 1) as nat) * unity()
        }),
{
    let u = unity();
    let p = pow2(1072);
    let m = (n - 1) as nat;
    lemma_count(k as nat);
    lemma2_to64();
    lemma2_to64_rest();
    lemma_pow2_unfold(1074);
    lemma_pow2_unfold(1073);
    lemma_pow2_adds(51, 1021);
    assert(u == 4 * p);
    reveal(at_most);
    reveal(magnitude_of);
    assert(units(three_quarters().mag()) == 3 * p) by {
        assert(sig(three_quarters().mag()) == 0x18_0000_0000_0000);
        assert(expo(three_quarters().mag()) == 1021);
        assert(pow2(51) == 0x8_0000_0000_0000);
        assert(p == 0x8_0000_0000_0000 * pow2(1021));
        let e = pow2(1021);
        assert(units(three_quarters().mag()) == 0x18_0000_0000_0000 * e);
    }
    lemma_units_monotone(step.mag(), three_quarters().mag());
    assert(-3 * p <= step.value() <= 3 * p);
    let s = k * u + step.value();
    let b = (4 * m - 1) as nat;
    assert(p <= s <= b * p) by (nonlinear_arith)
        requires
            s == k * u + step.value(),
            u == 4 * p,
            1 <= k <= m - 1,
            -3 * p <= step.value() <= 3 * p,
            b == 4 * m - 1,
            p >= 0,
    ;
    reveal(sum_of);
    lemma_pow2_pos(1072);
    lemma_round_multiple(b, 1072);
    lemma_round_beside(s as nat, 1, round_ratio(b * p, 1));
    let r = round_ratio(s as nat, 1);
    lemma_units_monotone(r, round_ratio(b * p, 1));
    assert(b * u == 4 * (b * p)) by (nonlinear_arith)
        requires
            u == 4 * p,
    ;
}

/// The place `k` and `step` more on the grid of a measured interval lies in the interval.
proof fn lemma_parabola_inside(lb: F64, ub: F64, n: nat, k: int, step: F64)
    requires
        measured(lb, ub, n),
        0 < k < n - 1,
        step.finite(),
        magnitude_of(step) <= three_quarters(),
    ensures
        (lb + (ub - lb) * (count_of(k as nat) + step) / count_of((n - 1) as nat)).within(lb, ub),
{
    lemma_length(lb, ub, n);
    lemma_place(n, k, step);
    let m = (n - 1) as nat;
    let u = unity();
    let w = (ub.value() - lb.value()) as nat;
    let d = ub - lb;
    let c = count_of(k as nat) + step;
    let x = units(d.mag());
    let y = units(c.mag());
    let b = (4 * m - 1) as nat;
    lemma_pow2_pos(1074);
    lemma_count(m);
    let a = d * c;
    assert(4 * (x * y) <= (x * b) * u) by (nonlinear_arith)
        requires
            4 * y <= b * u,
            x >= 0,
    ;
    assert(x * b <= 4 * top()) by {
        assert(0x4000_0000 * (x * b) <= 0x4000_0001 * (w * b) + 0x4000_0000 * b)
            by (nonlinear_arith)
            requires
                0x4000_0000 * x <= 0x4000_0001 * w + 0x4000_0000,
        ;
        assert(w * b <= 4 * (w * n) - 5 * w) by (nonlinear_arith)
            requires
                b == 4 * n - 5,
        ;
        assert(w * n <= 0x10_0000 * w) by (nonlinear_arith)
            requires
                n <= 0x10_0000,
        ;
        assert(b <= w) by {
            assert(n <= n * n) by (nonlinear_arith)
                requires
                    n >= 1,
            ;
        }
    }
    assert(x * y <= top() * u) by (nonlinear_arith)
        requires
            4 * (x * y) <= (x * b) * u,
            x * b <= 4 * top(),
            u > 0,
    ;
    reveal(product_of);
    lemma_round_beside(x * y, u, (INF_MAG - 1) as nat);
    lemma_round_relative(x * y, u);
    let g = units(a.mag());
    assert(a.finite() && !a.sign());
    assert(4 * 0x4000_0000 * g <= 0x4000_0001 * (x * b) + 4 * 0x4000_0000) by (nonlinear_arith)
        requires
            0x4000_0000 * (g * u) <= 0x4000_0001 * (x * y) + 0x4000_0000 * u,
            4 * (x * y) <= (x * b) * u,
            u > 0,
    ;
    let q = a / count_of(m);
    if a.zero() {
        reveal(quotient_of);
        lemma_fields(count_of(m).mag());
        lemma_fields(0);
        assert(m * u > 0) by (nonlinear_arith)
            requires
                m >= 1,
                u > 0,
        ;
        assert(0 * u == 0);
        lemma_round_zero(m * u);
        assert(q.zero());
    } else {
        lemma_part(a, m);
        lemma_peak_shrinks(w, x, g, units(q.mag()), m);
    }
    assert(q.finite() && 0 <= q.value() <= w);
    lemma_sum_beside(lb, q, lb);
    lemma_sum_beside(lb, q, ub);
}

/// The first one of the grid values that are not NaN wins over those that are not above it.
proof fn lemma_first_wins(f: Seq<F64>, k: nat)
    requires
        forall|i: int| 0 <= i < k ==> f[i].nan() || f[i] == f[0],
    ensures
        first_real_max(f, k) == (if k > 0 && !f[0].nan() {
            Some(0int)
        } else {
            None
        }),
    decreases k,
{
    if k > 0 {
        lemma_first_wins(f, (k - 1) as nat);
        assert(f[k - 1].nan() || f[k - 1] == f[0]);
        reveal(below);
    }
}

/// The maximizer of a function that is constant on the grid, or NaN there, is the lower end.
pub proof fn lemma_peak_at_start(lb: F64, ub: F64, x: Seq<F64>, f: Seq<F64>)
    requires
        forall|i: int| 0 <= i < f.len() ==> #[trigger] f[i].nan() || f[i] == f[0],
    ensures
        peak(lb, ub, x, f) == lb,
{
    lemma_first_wins(f, f.len());
}

} // verus!
