//! The turn of a step on the boundary of the trust region.
use vstd::prelude::*;

use crate::consts::one;
use crate::float::arith::sum_of;
use crate::float::calculus::lemma_near_difference;
use crate::float::calculus::lemma_near_product;
use crate::float::calculus::lemma_near_quotient;
use crate::float::calculus::lemma_near_scaled;
use crate::float::calculus::lemma_near_self;
use crate::float::calculus::lemma_near_sum;
use crate::float::calculus::lemma_near_wider;
use crate::float::calculus::near;
use crate::float::convert::unity;
use crate::float::error::size;
use crate::float::error::SHARP;
use crate::float::near::lemma_order_value;
use crate::float::order::min_of;
use crate::float::F64;
use crate::linalg::turning::lemma_one;
use crate::trustregion::arc_turn;
use crate::trustregion::cosine;
use crate::trustregion::sine;
use crate::trustregion::Arc;
use crate::trustregion::FREE;
use crate::trustregion::Subproblem;
use crate::update::formula::ample;
use crate::update::formula::fits;

verus! {

/// The smaller of two numbers is near the smaller of what they are near to.
proof fn lemma_near_least(x: F64, y: F64, s: int, n: int, k: int, m: int, c: int)
    requires
        near(x, s, n, m, c),
        near(y, s, k, m, c),
        n <= k,
    ensures
        near(min_of(x, y), s, n, m, c),
{
    reveal(min_of);
    lemma_order_value(y, x);
    let a = x.value();
    let b = y.value();
    if b < a {
        assert(b * s <= a * s) by (nonlinear_arith)
            requires
                b < a,
                s > 0,
        ;
        let e = a * s - n;
        let f = b * s - k;
        let g = b * s - n;
        assert(f <= g <= e);
        assert(size(g) <= size(e) || size(g) <= size(f));
    }
}

/// The square of the tangent of half the angle, and what it is added to and taken from.
proof fn lemma_parts(h: F64)
    requires
        h.finite(),
        0 <= h.value() <= unity(),
        (h * h).finite(),
        (one() + h * h).finite(),
        (one() - h * h).finite(),
    ensures
        ({
            let u = unity() as int;
            let v = h.value();
            &&& near(one() + h * h, u, u * u + v * v, 2 * (u * u), 3)
            &&& near(one() - h * h, u, u * u - v * v, 2 * (u * u), 3)
            &&& u <= (one() + h * h).value() <= 3 * u
        }),
{
    let u = unity() as int;
    let v = h.value();
    lemma_one();
    lemma_near_self(h, u);
    lemma_near_self(one(), u);
    assert(1 * 1 * u == u) by (nonlinear_arith);
    assert(2 * SHARP * u <= u * u) by (nonlinear_arith)
        requires
            u >= 2 * SHARP,
    ;
    lemma_near_product(h, h, 1, v, u, 0, 1, v, u, 0);
    lemma_near_scaled(one(), 1, u, u, 0, u);
    assert(1 * u == u) by (nonlinear_arith);
    lemma_near_sum(one(), h * h, u, u * u, u * u, 0, v * v, u * u, 2);
    lemma_near_difference(one(), h * h, u, u * u, u * u, 0, v * v, u * u, 2);
    let d = (one() + h * h).value();
    let q = u * u;
    let p = v * v;
    assert(0 <= p <= q) by (nonlinear_arith)
        requires
            0 <= v <= u,
            q == u * u,
            p == v * v,
    ;
    assert(d * u <= 3 * q) by {
        assert(0x1_0000_0000_0000 * size(d * u - (q + p)) <= 3 * (2 * q));
    }
    assert(d <= 3 * u) by (nonlinear_arith)
        requires
            d * u <= 3 * q,
            q == u * u,
            u > 0,
    ;
    crate::float::near::lemma_sum_beside(one(), h * h, one());
    lemma_square_sign(h);
    lemma_order_value(one(), one() + h * h);
}

/// A square is not negative.
proof fn lemma_square_sign(h: F64)
    requires
        h.finite(),
        (h * h).finite(),
    ensures
        (h * h).value() >= 0,
{
    reveal(crate::float::arith::product_of);
    crate::float::arith::lemma_fields(0);
}

/// The turn by the angle of which `h` is the tangent of the half.  With `D` near to `1 + h^2`, the
/// cosine times `D` is `1 - h^2` and the sine times `D` is `2 h`, up to rounding.
pub proof fn lemma_turn(h: F64)
    requires
        h.finite(),
        0 <= h.value() <= unity(),
        (h * h).finite(),
        (one() + h * h).finite(),
        (one() - h * h).finite(),
        (h + h).finite(),
        ((one() - h * h) / (one() + h * h)).finite(),
        ((h + h) / (one() + h * h)).finite(),
    ensures
        ({
            let u = unity() as int;
            let v = h.value();
            let d = (one() + h * h).value();
            &&& near(one() + h * h, u, u * u + v * v, 2 * (u * u), 3)
            &&& near(cosine(h), u * d, (u * u - v * v) * u, 6 * (u * u) * u, 5)
            &&& near(sine(h), d, 2 * v * u, 6 * (u * u), 3)
        }),
{
    let u = unity() as int;
    let v = h.value();
    let den = one() + h * h;
    let d = den.value();
    let q = u * u;
    let p = v * v;
    lemma_one();
    lemma_parts(h);
    assert(0 <= p <= q) by (nonlinear_arith)
        requires
            0 <= v <= u,
            q == u * u,
            p == v * v,
    ;
    assert(2 * SHARP * (u * d) <= 2 * q * u) by (nonlinear_arith)
        requires
            d <= 3 * u,
            u >= 3 * SHARP,
            u > 0,
            q == u * u,
    ;
    lemma_near_quotient(one() - h * h, den, u, q - p, 2 * q, 3);
    lemma_near_scaled(one() - h * h, u, q - p, 2 * q, 3, d);
    let w = 6 * q * u;
    assert(2 * q * u <= w && 2 * q * d <= w) by (nonlinear_arith)
        requires
            w == 6 * q * u,
            d <= 3 * u,
            q >= 0,
            u > 0,
    ;
    lemma_near_wider((one() - h * h) / den, u * d, (q - p) * u, 2 * q * u, 5, w, 5);
    lemma_near_wider(one() - h * h, u * d, (q - p) * d, 2 * q * d, 3, w, 5);
    assert((q - p) * u <= (q - p) * d) by (nonlinear_arith)
        requires
            u <= d,
            q - p >= 0,
    ;
    lemma_near_least(
        (one() - h * h) / den,
        one() - h * h,
        u * d,
        (q - p) * u,
        (q - p) * d,
        w,
        5,
    );
    assert(6 * (u * u) * u == w);
    lemma_near_self(h, u);
    lemma_near_sum(h, h, 1, v, u, 0, v, u, 0);
    assert(1 * d == d) by (nonlinear_arith);
    assert(2 * SHARP * d <= (u + u) * u) by (nonlinear_arith)
        requires
            d <= 3 * u,
            u >= 3 * SHARP,
            u > 0,
    ;
    lemma_near_quotient(h + h, den, 1, v + v, u + u, 1);
    lemma_near_scaled(h + h, 1, v + v, u + u, 1, d);
    let x = 6 * q;
    assert((u + u) * u <= x && (u + u) * d <= x) by (nonlinear_arith)
        requires
            x == 6 * q,
            q == u * u,
            d <= 3 * u,
            u > 0,
    ;
    lemma_near_wider((h + h) / den, d, (v + v) * u, (u + u) * u, 3, x, 3);
    lemma_near_wider(h + h, d, (v + v) * d, (u + u) * d, 1, x, 3);
    assert((v + v) * u <= (v + v) * d) by (nonlinear_arith)
        requires
            u <= d,
            v >= 0,
    ;
    lemma_near_least((h + h) / den, h + h, d, (v + v) * u, (v + v) * d, x, 3);
    assert((v + v) * u == 2 * v * u) by (nonlinear_arith);
}

/// The turned step: a fixed variable stays, and a free one is the cosine times the step plus the
/// sine times the direction of the turn, up to rounding.
pub proof fn lemma_turned(
    p: Subproblem,
    a: Arc,
    s: Seq<F64>,
    hs: Seq<F64>,
    iact: Option<int>,
    hangt: F64,
    bd: F64,
    sdec: F64,
    i: int,
    b: int,
)
    requires
        0 <= i < a.d.len(),
        ample(b),
        fits(cosine(hangt), b),
        fits(sine(hangt), b),
        fits(a.d[i], b),
        fits(s[i], b),
        arc_turn(p, a, s, hs, iact, hangt, bd, sdec).d[i].finite(),
    ensures
        ({
            let r = arc_turn(p, a, s, hs, iact, hangt, bd, sdec);
            let c = cosine(hangt).value();
            let t = sine(hangt).value();
            &&& a.xbdi[i] != FREE ==> r.d[i] == a.d[i]
            &&& a.xbdi[i] == FREE ==> r.d == a.d || near(
                r.d[i],
                unity() as int,
                c * a.d[i].value() + t * s[i].value(),
                2 * (b * b),
                3,
            )
        }),
{
    let u = unity() as int;
    let r = arc_turn(p, a, s, hs, iact, hangt, bd, sdec);
    let c = cosine(hangt);
    let t = sine(hangt);
    let x = c * a.d[i];
    let y = t * s[i];
    if a.xbdi[i] == FREE && r.d != a.d {
        assert(r.d[i] == x + y);
        assert(x.finite() && y.finite()) by {
            reveal(sum_of);
        }
        lemma_near_self(c, b);
        lemma_near_self(t, b);
        lemma_near_self(a.d[i], b);
        lemma_near_self(s[i], b);
        assert(1 * 1 * u == u) by (nonlinear_arith);
        lemma_near_product(c, a.d[i], 1, c.value(), b, 0, 1, a.d[i].value(), b, 0);
        lemma_near_product(t, s[i], 1, t.value(), b, 0, 1, s[i].value(), b, 0);
        let bb = b * b;
        lemma_near_sum(x, y, u, c.value() * a.d[i].value(), bb, 2, t.value() * s[i].value(), bb, 2);
        assert(bb + bb == 2 * bb);
    }
}

} // verus!
