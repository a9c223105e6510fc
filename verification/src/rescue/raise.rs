//! How the explicit Hessian takes up the square of a provisional point.
use vstd::prelude::*;

use crate::consts::zero;
use crate::float::arith::lemma_fields;
use crate::float::arith::product_of;
use crate::float::arith::sum_of;
use crate::float::calculus::lemma_near_product;
use crate::float::calculus::lemma_near_scaled;
use crate::float::calculus::lemma_near_self;
use crate::float::calculus::lemma_near_sum;
use crate::float::calculus::lemma_near_wider;
use crate::float::calculus::near;
use crate::float::convert::unity;
use crate::float::F64;
use crate::rescue::hessian_raised;
use crate::rescue::provisional_point;
use crate::update::formula::ample;
use crate::update::formula::fits;

verus! {

/// A number plus a product of three, of which two are multiplied first.
proof fn lemma_added_product(h: F64, c: F64, x: F64, y: F64, b: int)
    requires
        ample(b),
        fits(h, b),
        fits(c, b),
        fits(x, b),
        fits(y, b),
    ensures
        ({
            let u = unity() as int;
            let n = h.value() * (u * u) + c.value() * (x.value() * y.value());
            let m = b * (u * u) + b * (b * b);
            &&& (h + c * (x * y)).finite() ==> near(h + c * (x * y), u * u, n, m, 5)
            &&& (h + c * x * y).finite() ==> near(h + c * x * y, u * u, n, m, 5)
        }),
{
    let u = unity() as int;
    let uu = u * u;
    let bb = b * b;
    vstd::arithmetic::power2::lemma_pow2_pos(1074);
    lemma_near_self(h, b);
    lemma_near_self(c, b);
    lemma_near_self(x, b);
    lemma_near_self(y, b);
    assert(uu > 0) by (nonlinear_arith)
        requires
            uu == u * u,
            u > 0,
    ;
    lemma_near_scaled(h, 1, h.value(), b, 0, uu);
    assert(1 * uu == uu && 1 * 1 * u == u && 1 * u * u == uu && u * 1 * u == uu)
        by (nonlinear_arith)
        requires
            uu == u * u,
    ;
    assert(bb * b == b * bb) by (nonlinear_arith);
    let v = c.value();
    let p = x.value();
    let q = y.value();
    assert(b * bb == b * b * b) by (nonlinear_arith)
        requires
            bb == b * b,
    ;
    if (h + c * (x * y)).finite() {
        assert((c * (x * y)).finite()) by {
            reveal(sum_of);
        }
        assert((x * y).finite()) by {
            reveal(product_of);
        }
        lemma_near_product(x, y, 1, p, b, 0, 1, q, b, 0);
        lemma_near_product(c, x * y, 1, v, b, 0, u, p * q, bb, 2);
        lemma_near_sum(h, c * (x * y), uu, h.value() * uu, b * uu, 0, v * (p * q), b * bb, 4);
    }
    if (h + c * x * y).finite() {
        assert((c * x * y).finite()) by {
            reveal(sum_of);
        }
        assert((c * x).finite()) by {
            reveal(product_of);
        }
        lemma_near_product(c, x, 1, v, b, 0, 1, p, b, 0);
        lemma_near_product(c * x, y, u, v * p, bb, 2, 1, q, b, 0);
        assert(v * p * q == v * (p * q)) by (nonlinear_arith);
        lemma_near_sum(h, c * x * y, uu, h.value() * uu, b * uu, 0, v * (p * q), b * bb, 4);
    }
}

/// Each entry of the explicit Hessian grows by `c` times the product of the two coordinates of the
/// provisional point, up to rounding.
pub proof fn lemma_raised_near(
    h: Seq<Seq<F64>>,
    id: (usize, usize),
    c: F64,
    a1: Seq<F64>,
    a2: Seq<F64>,
    r: int,
    s: int,
    b: int,
)
    requires
        a1.len() == h.len(),
        a2.len() == h.len(),
        forall|j: int| 0 <= j < h.len() ==> (#[trigger] h[j]).len() == h.len(),
        0 <= r < h.len(),
        0 <= s < h.len(),
        id.0 <= h.len(),
        id.1 <= h.len(),
        id.0 > 0 ==> id.0 != id.1,
        h[r][s] == h[s][r],
        ample(b),
        fits(c, b),
        fits(h[r][s], b),
        forall|i: int| 0 <= i < h.len() ==> fits(#[trigger] a1[i], b),
        forall|i: int| 0 <= i < h.len() ==> fits(#[trigger] a2[i], b),
        hessian_raised(h, id, c, a1, a2)[r][s].finite(),
    ensures
        ({
            let u = unity() as int;
            let x = provisional_point(id, a1, a2);
            near(
                hessian_raised(h, id, c, a1, a2)[r][s],
                u * u,
                h[r][s].value() * (u * u) + c.value() * (x[r].value() * x[s].value()),
                b * (u * u) + b * (b * b),
                5,
            )
        }),
{
    let u = unity() as int;
    let uu = u * u;
    let x = provisional_point(id, a1, a2);
    let e = hessian_raised(h, id, c, a1, a2)[r][s];
    let g = h[r][s];
    vstd::arithmetic::power2::lemma_pow2_pos(1074);
    lemma_fields(0);
    lemma_added_product(g, c, x[r], x[s], b);
    lemma_added_product(g, c, x[s], x[r], b);
    let p = x[r].value();
    let q = x[s].value();
    assert(p * q == q * p) by (nonlinear_arith);
    if e == g + c * (x[r] * x[s]) || e == g + c * x[r] * x[s] || e == g + c * x[s] * x[r] {
    } else {
        assert(e == g);
        assert(x[r] == zero() || x[s] == zero());
        assert(p * q == 0) by (nonlinear_arith)
            requires
                p == 0 || q == 0,
        ;
        let v = c.value();
        assert(v * 0 == 0) by (nonlinear_arith);
        lemma_near_self(g, b);
        assert(uu > 0 && b * (b * b) >= 0) by (nonlinear_arith)
            requires
                uu == u * u,
                u > 0,
                b > 0,
        ;
        lemma_near_scaled(g, 1, g.value(), b, 0, uu);
        assert(1 * uu == uu) by (nonlinear_arith);
        lemma_near_wider(g, uu, g.value() * uu, b * uu, 0, b * uu + b * (b * b), 5);
    }
}

} // verus!
