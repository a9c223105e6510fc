//! How the initial model fits the values.
use vstd::arithmetic::power2::pow2;
use vstd::prelude::*;

use crate::consts::two;
use crate::float::arith::product_of;
use crate::float::arith::quotient_of;
use crate::float::arith::sum_of;
use crate::float::calculus::lemma_near_difference;
use crate::float::calculus::lemma_near_product;
use crate::float::calculus::lemma_near_ratio;
use crate::float::calculus::lemma_near_scaled;
use crate::float::calculus::lemma_near_self;
use crate::float::calculus::lemma_near_wider;
use crate::float::calculus::lemma_sign;
use crate::float::calculus::near;
use crate::float::calculus::sign_of;
use crate::float::convert::unity;
use crate::float::error::size;
use crate::float::error::SHARP;
use crate::float::expo;
use crate::float::near::lemma_negation_value;
use crate::float::sig;
use crate::float::F64;
use crate::initialize::diag_count;
use crate::initialize::start_curvature;
use crate::initialize::start_slope;
use crate::linalg::turning::lemma_one;
use crate::update::formula::ample;
use crate::update::formula::fits;

verus! {

/// A difference of two values by a coordinate.
proof fn lemma_divided(fa: F64, f0: F64, x: F64, b: int)
    requires
        ample(b),
        fits(fa, b),
        fits(f0, b),
        fits(x, b),
        x.value() != 0,
        b <= unity() * unity(),
        ((fa - f0) / x).finite(),
    ensures
        near(
            (fa - f0) / x,
            size(x.value()),
            (fa.value() - f0.value()) * unity() * sign_of(x.value()),
            2 * b * unity(),
            3,
        ),
{
    let u = unity() as int;
    vstd::arithmetic::power2::lemma_pow2_pos(1074);
    lemma_one();
    assert((fa - f0).finite()) by {
        reveal(quotient_of);
    }
    lemma_near_self(fa, b);
    lemma_near_self(f0, b);
    lemma_near_difference(fa, f0, 1, fa.value(), b, 0, f0.value(), b, 0);
    let z = size(x.value());
    assert(1 * z == z) by (nonlinear_arith);
    assert(2 * SHARP * z <= (b + b) * u) by (nonlinear_arith)
        requires
            z <= b,
            u >= SHARP,
            b > 0,
    ;
    lemma_near_ratio(fa - f0, x, 1, fa.value() - f0.value(), b + b, 1);
    assert(b + b == 2 * b);
}

/// The slope of the parabola through the base value and the values at two points on a direction:
/// times the coordinates `xa` and `xb` of the points and their difference it is
/// `(fa - f0) xb^2 - (fb - f0) xa^2`, up to rounding.
pub proof fn lemma_slope_fits(n: nat, fval: Seq<F64>, xpt: Seq<Seq<F64>>, i: int, b: int)
    requires
        0 <= i < diag_count(n, xpt.len()),
        ample(b),
        b <= unity() * unity(),
        fits(fval[0], b),
        fits(fval[i + 1], b),
        fits(fval[n + 1 + i], b),
        fits(xpt[i + 1][i], b),
        fits(xpt[n + 1 + i][i], b),
        xpt[i + 1][i].value() != 0,
        xpt[n + 1 + i][i].value() != 0,
        (xpt[n + 1 + i][i] - xpt[i + 1][i]).finite(),
        (xpt[n + 1 + i][i] - xpt[i + 1][i]).value() == xpt[n + 1 + i][i].value() - xpt[i
            + 1][i].value(),
        xpt[n + 1 + i][i].value() != xpt[i + 1][i].value(),
        size(xpt[n + 1 + i][i].value() - xpt[i + 1][i].value()) <= 2 * b,
        start_slope(n, xpt.len(), fval, xpt, i).finite(),
    ensures
        ({
            let u = unity() as int;
            let xa = xpt[i + 1][i].value();
            let xb = xpt[n + 1 + i][i].value();
            let fa = fval[i + 1].value() - fval[0].value();
            let fb = fval[n + 1 + i].value() - fval[0].value();
            near(
                start_slope(n, xpt.len(), fval, xpt, i),
                size(xa) * u * size(xb) * size(xb - xa),
                (fa * (xb * xb) - fb * (xa * xa)) * (sign_of(xa) * sign_of(xb)) * u * u * sign_of(
                    xb - xa,
                ),
                4 * (b * b) * u * b * u,
                8,
            )
        }),
{
    let u = unity() as int;
    let xa = xpt[i + 1][i];
    let xb = xpt[n + 1 + i][i];
    let f0 = fval[0];
    let a = (fval[i + 1] - f0) / xa;
    let c = (fval[n + 1 + i] - f0) / xb;
    let va = xa.value();
    let vb = xb.value();
    let p = a * xb;
    let q = c * xa;
    let d = xb - xa;
    vstd::arithmetic::power2::lemma_pow2_pos(1074);
    lemma_one();
    assert(start_slope(n, xpt.len(), fval, xpt, i) == (p - q) / d);
    assert((p - q).finite()) by {
        reveal(quotient_of);
    }
    assert(p.finite() && q.finite()) by {
        reveal(sum_of);
        lemma_negation_value(q);
    }
    assert(a.finite() && c.finite()) by {
        reveal(product_of);
    }
    lemma_divided(fval[i + 1], f0, xa, b);
    lemma_divided(fval[n + 1 + i], f0, xb, b);
    let fa = fval[i + 1].value() - f0.value();
    let fb = fval[n + 1 + i].value() - f0.value();
    lemma_near_self(xa, b);
    lemma_near_self(xb, b);
    let sa = size(va);
    let sb = size(vb);
    let m = 2 * b * u;
    let na = fa * u * sign_of(va);
    let nb = fb * u * sign_of(vb);
    assert(sa * 1 * u == sa * u && sb * 1 * u == sb * u) by (nonlinear_arith);
    assert(2 * SHARP * (sa * u) <= m * b) by (nonlinear_arith)
        requires
            sa <= b,
            m == 2 * b * u,
            b >= 2 * SHARP,
            u > 0,
    ;
    assert(2 * SHARP * (sb * u) <= m * b) by (nonlinear_arith)
        requires
            sb <= b,
            m == 2 * b * u,
            b >= 2 * SHARP,
            u > 0,
    ;
    lemma_near_product(a, xb, sa, na, m, 3, 1, vb, b, 0);
    lemma_near_product(c, xa, sb, nb, m, 3, 1, va, b, 0);
    lemma_near_scaled(p, sa * u, na * vb, m * b, 5, sb);
    lemma_near_scaled(q, sb * u, nb * va, m * b, 5, sa);
    let s = sa * u * sb;
    assert(sb * u * sa == s) by (nonlinear_arith)
        requires
            s == sa * u * sb,
    ;
    let mb = m * b;
    lemma_near_difference(p, q, s, na * vb * sb, mb * sb, 5, nb * va * sa, mb * sa, 5);
    let w = 2 * (mb * b);
    assert(mb * sb + mb * sa <= w) by (nonlinear_arith)
        requires
            0 <= sa <= b,
            0 <= sb <= b,
            mb >= 0,
            w == 2 * (mb * b),
    ;
    let nd = na * vb * sb - nb * va * sa;
    lemma_near_wider(p - q, s, nd, mb * sb + mb * sa, 6, w, 6);
    let sd = size(d.value());
    assert(2 * SHARP * (s * sd) <= w * u) by {
        let bb = b * b;
        let g = (bb * b) * u;
        assert(w == 4 * g) by (nonlinear_arith)
            requires
                w == 2 * (mb * b),
                mb == m * b,
                m == 2 * b * u,
                bb == b * b,
                g == (bb * b) * u,
        ;
        assert(s <= bb * u) by (nonlinear_arith)
            requires
                s == sa * u * sb,
                0 <= sa <= b,
                0 <= sb <= b,
                bb == b * b,
                u > 0,
        ;
        let bu = bb * u;
        assert(s * sd <= bu * (2 * b)) by (nonlinear_arith)
            requires
                0 <= s <= bu,
                0 <= sd <= 2 * b,
        ;
        assert(bu * (2 * b) == 2 * g) by (nonlinear_arith)
            requires
                bu == bb * u,
                g == (bb * b) * u,
        ;
        assert(2 * SHARP * (2 * g) <= w * u) by (nonlinear_arith)
            requires
                w == 4 * g,
                g >= 0,
                u >= SHARP,
        ;
        assert(2 * SHARP * (s * sd) <= 2 * SHARP * (2 * g)) by (nonlinear_arith)
            requires
                s * sd <= 2 * g,
        ;
    }
    lemma_near_ratio(p - q, d, s, nd, w, 6);
    lemma_sign(va);
    lemma_sign(vb);
    let ga = sign_of(va);
    let gb = sign_of(vb);
    assert(na * vb * sb == fa * (vb * vb) * (ga * gb) * u) by {
        assert(vb * sb == (vb * vb) * gb) by (nonlinear_arith)
            requires
                sb == vb * gb,
        ;
        let t = vb * vb;
        assert((fa * u * ga) * (t * gb) == fa * t * (ga * gb) * u) by (nonlinear_arith);
        assert(na * vb * sb == na * (vb * sb)) by (nonlinear_arith);
    }
    assert(nb * va * sa == fb * (va * va) * (ga * gb) * u) by {
        assert(va * sa == (va * va) * ga) by (nonlinear_arith)
            requires
                sa == va * ga,
        ;
        let t = va * va;
        assert((fb * u * gb) * (t * ga) == fb * t * (ga * gb) * u) by (nonlinear_arith);
        assert(nb * va * sa == nb * (va * sa)) by (nonlinear_arith);
    }
    let g2 = ga * gb;
    let x1 = fa * (vb * vb);
    let x2 = fb * (va * va);
    assert(x1 * g2 * u - x2 * g2 * u == (x1 - x2) * g2 * u) by (nonlinear_arith);
    assert(w * u == 4 * (b * b) * u * b * u) by (nonlinear_arith)
        requires
            w == 2 * (mb * b),
            mb == m * b,
            m == 2 * b * u,
    ;
}

/// The parabola with the slope `n1 / (xa xb (xb - xa))` and the second derivative
/// `n2 / (xa xb (xb - xa))`, where `n1 = fa xb^2 - fb xa^2` and `n2 = -2 (fa xb - fb xa)`, has the
/// value `fa` at `xa` and `fb` at `xb`.
pub proof fn lemma_parabola(fa: int, fb: int, xa: int, xb: int)
    ensures
        ({
            let n1 = fa * (xb * xb) - fb * (xa * xa);
            let n2 = -2 * (fa * xb - fb * xa);
            let d = xa * xb * (xb - xa);
            &&& 2 * (n1 * xa) + n2 * (xa * xa) == 2 * (fa * d)
            &&& 2 * (n1 * xb) + n2 * (xb * xb) == 2 * (fb * d)
        }),
{
    let p = fa * xb;
    let q = fb * xa;
    let e = xb - xa;
    let n1 = fa * (xb * xb) - fb * (xa * xa);
    assert(n1 == p * xb - q * xa) by (nonlinear_arith)
        requires
            n1 == fa * (xb * xb) - fb * (xa * xa),
            p == fa * xb,
            q == fb * xa,
    ;
    let n2 = -2 * (p - q);
    let d = xa * xb * e;
    assert(n1 * xa + -(p - q) * (xa * xa) == (n1 - (p - q) * xa) * xa) by (nonlinear_arith);
    assert(n1 - (p - q) * xa == p * e) by (nonlinear_arith)
        requires
            n1 == p * xb - q * xa,
            e == xb - xa,
    ;
    assert((p * e) * xa == fa * d) by (nonlinear_arith)
        requires
            p == fa * xb,
            d == xa * xb * e,
    ;
    assert(n1 * xb + -(p - q) * (xb * xb) == (n1 - (p - q) * xb) * xb) by (nonlinear_arith);
    assert(n1 - (p - q) * xb == q * e) by (nonlinear_arith)
        requires
            n1 == p * xb - q * xa,
            e == xb - xa,
    ;
    assert((q * e) * xb == fb * d) by (nonlinear_arith)
        requires
            q == fb * xa,
            d == xa * xb * e,
    ;
    let z = p - q;
    assert(n2 * (xa * xa) == 2 * (-z * (xa * xa))) by (nonlinear_arith)
        requires
            n2 == -2 * z,
    ;
    assert(n2 * (xb * xb) == 2 * (-z * (xb * xb))) by (nonlinear_arith)
        requires
            n2 == -2 * z,
    ;
}

/// The curvature of the parabola through the base value and the values at two points on a
/// direction: times the coordinates `xa` and `xb` of the points and their difference it is `-2 ((fa
/// - f0) xb - (fb - f0) xa)`, up to rounding.
pub proof fn lemma_curvature_fits(n: nat, fval: Seq<F64>, xpt: Seq<Seq<F64>>, i: int, b: int)
    requires
        ample(b),
        b <= unity() * unity(),
        SHARP * b <= unity() * unity(),
        fits(fval[0], b),
        fits(fval[i + 1], b),
        fits(fval[n + 1 + i], b),
        fits(xpt[i + 1][i], b),
        fits(xpt[n + 1 + i][i], b),
        xpt[i + 1][i].value() != 0,
        xpt[n + 1 + i][i].value() != 0,
        (xpt[i + 1][i] - xpt[n + 1 + i][i]).finite(),
        (xpt[i + 1][i] - xpt[n + 1 + i][i]).value() == xpt[i + 1][i].value() - xpt[n + 1
            + i][i].value(),
        xpt[n + 1 + i][i].value() != xpt[i + 1][i].value(),
        size(xpt[n + 1 + i][i].value() - xpt[i + 1][i].value()) <= 2 * b,
        start_curvature(n, fval, xpt, i).finite(),
    ensures
        ({
            let u = unity() as int;
            let xa = xpt[i + 1][i].value();
            let xb = xpt[n + 1 + i][i].value();
            let fa = fval[i + 1].value() - fval[0].value();
            let fb = fval[n + 1 + i].value() - fval[0].value();
            near(
                start_curvature(n, fval, xpt, i),
                size(xa) * size(xb) * u * size(xa - xb),
                (2 * u) * ((fa * xb - fb * xa) * (sign_of(xa) * sign_of(xb)) * u) * u * sign_of(
                    xa - xb,
                ),
                (2 * u) * (4 * (b * b) * u) * u,
                8,
            )
        }),
{
    let u = unity() as int;
    let xa = xpt[i + 1][i];
    let xb = xpt[n + 1 + i][i];
    let f0 = fval[0];
    let a = (fval[i + 1] - f0) / xa;
    let c = (fval[n + i + 1] - f0) / xb;
    let va = xa.value();
    let vb = xb.value();
    let d = xa - xb;
    let e = a - c;
    vstd::arithmetic::power2::lemma_pow2_pos(1074);
    lemma_one();
    assert(start_curvature(n, fval, xpt, i) == two() * e / d);
    assert((two() * e).finite()) by {
        reveal(quotient_of);
    }
    assert(e.finite()) by {
        reveal(product_of);
    }
    assert(a.finite() && c.finite()) by {
        reveal(sum_of);
        lemma_negation_value(c);
    }
    lemma_divided(fval[i + 1], f0, xa, b);
    lemma_divided(fval[n + 1 + i], f0, xb, b);
    let fa = fval[i + 1].value() - f0.value();
    let fb = fval[n + 1 + i].value() - f0.value();
    let sa = size(va);
    let sb = size(vb);
    let m = 2 * b * u;
    let ga = sign_of(va);
    let gb = sign_of(vb);
    let na = fa * u * ga;
    let nb = fb * u * gb;
    lemma_near_scaled(a, sa, na, m, 3, sb);
    lemma_near_scaled(c, sb, nb, m, 3, sa);
    let s = sa * sb;
    assert(sb * sa == s) by (nonlinear_arith)
        requires
            s == sa * sb,
    ;
    lemma_near_difference(a, c, s, na * sb, m * sb, 3, nb * sa, m * sa, 3);
    let w = 4 * (b * b) * u;
    assert(m * sb + m * sa <= w) by (nonlinear_arith)
        requires
            m == 2 * b * u,
            0 <= sa <= b,
            0 <= sb <= b,
            w == 4 * (b * b) * u,
            u > 0,
    ;
    let nd = na * sb - nb * sa;
    lemma_near_wider(e, s, nd, m * sb + m * sa, 4, w, 4);
    assert(two().value() == 2 * u) by {
        vstd::arithmetic::power2::lemma2_to64();
        vstd::arithmetic::power2::lemma2_to64_rest();
        vstd::arithmetic::power2::lemma_pow2_adds(52, 1023);
        vstd::arithmetic::power2::lemma_pow2_unfold(1075);
        assert(sig(two().mag()) == pow2(52) && expo(two().mag()) == 1023);
    }
    lemma_near_self(two(), 2 * u);
    assert(1 * s * u == s * u) by (nonlinear_arith);
    let bb = b * b;
    assert(s <= bb) by (nonlinear_arith)
        requires
            s == sa * sb,
            0 <= sa <= b,
            0 <= sb <= b,
            bb == b * b,
    ;
    let g = bb * u;
    assert(w == 4 * g) by (nonlinear_arith)
        requires
            w == 4 * (b * b) * u,
            bb == b * b,
            g == bb * u,
    ;
    assert(s * u <= g) by (nonlinear_arith)
        requires
            0 <= s <= bb,
            g == bb * u,
            u > 0,
    ;
    let su = s * u;
    let tw = (2 * u) * w;
    assert(2 * SHARP * su <= tw) by (nonlinear_arith)
        requires
            0 <= su <= g,
            w == 4 * g,
            tw == (2 * u) * w,
            u >= SHARP,
    ;
    lemma_near_product(two(), e, 1, 2 * u, 2 * u, 0, s, nd, w, 4);
    let sd = size(d.value());
    assert(2 * SHARP * (su * sd) <= tw * u) by {
        let uu = u * u;
        let y = SHARP * sd;
        assert(y <= 2 * uu) by (nonlinear_arith)
            requires
                y == SHARP * sd,
                0 <= sd <= 2 * b,
                SHARP * b <= uu,
        ;
        assert(su * y <= g * (2 * uu)) by (nonlinear_arith)
            requires
                0 <= su <= g,
                0 <= y <= 2 * uu,
        ;
        assert(2 * SHARP * (su * sd) == 2 * (su * y)) by (nonlinear_arith)
            requires
                y == SHARP * sd,
        ;
        assert(tw * u == 8 * (g * uu)) by (nonlinear_arith)
            requires
                tw == (2 * u) * w,
                w == 4 * g,
                uu == u * u,
        ;
        assert(g * (2 * uu) == 2 * (g * uu)) by (nonlinear_arith);
        assert(g * uu >= 0) by (nonlinear_arith)
            requires
                g >= 0,
                uu >= 0,
        ;
    }
    lemma_near_ratio(two() * e, d, su, (2 * u) * nd, tw, 6);
    lemma_sign(va);
    lemma_sign(vb);
    assert(nd == (fa * vb - fb * va) * (ga * gb) * u) by {
        assert((fa * u * ga) * (vb * gb) == fa * vb * (ga * gb) * u) by (nonlinear_arith);
        assert((fb * u * gb) * (va * ga) == fb * va * (ga * gb) * u) by (nonlinear_arith);
        let x1 = fa * vb;
        let x2 = fb * va;
        let g2 = ga * gb;
        assert(x1 * g2 * u - x2 * g2 * u == (x1 - x2) * g2 * u) by (nonlinear_arith);
    }
}

} // verus!
