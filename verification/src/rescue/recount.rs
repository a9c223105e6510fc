//! The move of the base point keeps the second derivatives of the model.
use vstd::prelude::*;

use crate::bobyqb::shift::implicit_entry;
use crate::bobyqb::shift::lemma_half_value;
use crate::bobyqb::shift::lemma_recounted;
use crate::consts::half;
use crate::consts::one;
use crate::float::arith::product_of;
use crate::float::arith::sum_of;
use crate::float::calculus::lemma_near_product;
use crate::float::calculus::lemma_near_scaled;
use crate::float::calculus::lemma_near_self;
use crate::float::calculus::lemma_near_sum;
use crate::float::calculus::near;
use crate::float::calculus::MANY;
use crate::float::convert::unity;
use crate::float::error::size;
use crate::float::error::SHARP;
use crate::float::F64;
use crate::linalg::accuracy::exact_dot;
use crate::linalg::accuracy::exact_sum;
use crate::linalg::accuracy::lemma_inner_product;
use crate::linalg::accuracy::lemma_sum_near;
use crate::linalg::accuracy::values;
use crate::linalg::accuracy::within_size;
use crate::linalg::rank_two;
use crate::linalg::turning::lemma_one;
use crate::mat::row;
use crate::powalg::accuracy::points_within;
use crate::rescue::shift_vector;
use crate::update::formula::ample;
use crate::update::formula::fits;
use crate::vector::dot;
use crate::vector::total;

verus! {

/// An entry of the vector of the change: the sum of the coordinates of the points times their
/// coefficients, plus half the sum of the coefficients times the coordinate of the new base point.
proof fn lemma_vector_near(xpt: Seq<Seq<F64>>, pq: Seq<F64>, o: Seq<F64>, i: int, b: int)
    requires
        0 <= i < o.len(),
        pq.len() == xpt.len(),
        points_within(xpt, o.len(), b),
        within_size(pq, b, pq.len()),
        within_size(o, b, o.len()),
        ample(b),
        xpt.len() + 10 <= MANY,
        shift_vector(xpt, pq, o)[i].finite(),
    ensures
        ({
            let u = unity() as int;
            let n = xpt.len();
            near(
                shift_vector(xpt, pq, o)[i],
                u * u,
                exact_dot(values(row(xpt, i)), values(pq), n) * u + half().value() * exact_sum(
                    values(pq),
                    n,
                ) * o[i].value(),
                2 * ((n + 1) * (b * b) * u),
                n as int + 5,
            )
        }),
{
    let u = unity() as int;
    let n = xpt.len();
    let r = row(xpt, i);
    let ot = half() * total(pq);
    vstd::arithmetic::power2::lemma_pow2_pos(1074);
    lemma_half_value();
    lemma_one();
    assert(within_size(r, b, r.len())) by {
        assert forall|k: int| 0 <= k < r.len() implies (#[trigger] r[k]).finite() && size(
            r[k].value(),
        ) <= b by {
            assert(xpt[k].len() == o.len() && within_size(xpt[k], b, o.len()));
            assert(r[k] == xpt[k][i]);
        }
    }
    assert(dot(r, pq).finite() && (ot * o[i]).finite()) by {
        reveal(sum_of);
    }
    assert(ot.finite() && total(pq).finite()) by {
        reveal(product_of);
    }
    lemma_inner_product(r, pq, b, b);
    lemma_sum_near(pq, n, b);
    lemma_near_self(half(), u);
    let w = (n + 1) * b;
    let t = exact_sum(values(pq), n);
    let s = exact_dot(values(r), values(pq), n);
    let hv = half().value();
    assert(1 * 1 * u == u) by (nonlinear_arith);
    assert(u * w >= 2 * SHARP * u) by (nonlinear_arith)
        requires
            w == (n + 1) * b,
            n >= 0,
            b >= 2 * SHARP,
            u > 0,
    ;
    lemma_near_product(half(), total(pq), 1, hv, u, 0, 1, t, w, n as int);
    lemma_near_self(o[i], b);
    let uw = u * w;
    assert(u * 1 * u == u * u) by (nonlinear_arith);
    let bb = b * b;
    assert(uw * b == (n + 1) * bb * u) by (nonlinear_arith)
        requires
            uw == u * w,
            w == (n + 1) * b,
            bb == b * b,
    ;
    assert(2 * SHARP * (u * u) <= uw * b) by (nonlinear_arith)
        requires
            uw * b == (n + 1) * bb * u,
            bb >= 2 * SHARP * u,
            n >= 0,
            u > 0,
    ;
    lemma_near_product(ot, o[i], u, hv * t, uw, n as int + 2, 1, o[i].value(), b, 0);
    lemma_near_scaled(dot(r, pq), u, s, (n + 1) * bb, n as int + 2, u);
    lemma_near_sum(
        dot(r, pq),
        ot * o[i],
        u * u,
        s * u,
        (n + 1) * bb * u,
        n as int + 2,
        hv * t * o[i].value(),
        uw * b,
        n as int + 4,
    );
}

/// The two parts of the change of an entry add up to what the implicit part loses.
proof fn lemma_change(si: int, sj: int, t: int, hv: int, oi: int, oj: int, u: int)
    requires
        2 * hv == u,
    ensures
        (si * u + hv * t * oi) * oj + (sj * u + hv * t * oj) * oi == (si * oj + sj * oi + t * (oi
            * oj)) * u,
{
    let ht = hv * t;
    let oo = oi * oj;
    assert((si * u + ht * oi) * oj == (si * oj) * u + ht * oo) by (nonlinear_arith)
        requires
            oo == oi * oj,
    ;
    assert((sj * u + ht * oj) * oi == (sj * oi) * u + ht * oo) by (nonlinear_arith)
        requires
            oo == oi * oj,
    ;
    assert(2 * (ht * oo) == (t * oo) * u) by (nonlinear_arith)
        requires
            ht == hv * t,
            2 * hv == u,
    ;
    let x1 = si * oj;
    let x2 = sj * oi;
    let x3 = t * oo;
    assert((x1 + x2 + x3) * u == x1 * u + x2 * u + x3 * u) by (nonlinear_arith);
}

/// A move of the base point to the best point `o` before a rescue keeps the second derivatives of
/// the model: the explicit Hessian takes up what the implicit part loses when its points are
/// counted from `o`, up to rounding.  The points `xpt` are those counted from `o`.
pub proof fn lemma_rescue_keeps_hessian(
    hq: Seq<Seq<F64>>,
    pq: Seq<F64>,
    xpt: Seq<Seq<F64>>,
    o: Seq<F64>,
    i: int,
    j: int,
    b: int,
)
    requires
        0 <= j <= i < o.len(),
        hq.len() == o.len(),
        hq[j].len() == o.len(),
        pq.len() == xpt.len(),
        points_within(xpt, o.len(), b),
        within_size(pq, b, pq.len()),
        within_size(o, b, o.len()),
        fits(hq[j][i], b),
        ample(b),
        xpt.len() + 30 <= MANY,
        rank_two(hq, one(), o, shift_vector(xpt, pq, o))[j][i].finite(),
    ensures
        ({
            let u = unity() as int;
            let n = xpt.len();
            let oi = o[i].value();
            let oj = o[j].value();
            let r = rank_two(hq, one(), o, shift_vector(xpt, pq, o));
            let m = 2 * ((n + 1) * (b * b) * u);
            &&& r[i][j] == r[j][i]
            &&& near(
                r[j][i],
                u * (u * u) * u,
                hq[j][i].value() * (u * (u * u) * u) + (implicit_entry(xpt, pq, -oi, -oj, i, j, n)
                    - implicit_entry(xpt, pq, 0, 0, i, j, n)) * u * u,
                b * (u * (u * u) * u) + 2 * (u * b * m),
                n as int + 13,
            )
        }),
{
    let u = unity() as int;
    let n = xpt.len();
    let v = shift_vector(xpt, pq, o);
    let oi = o[i].value();
    let oj = o[j].value();
    let e = hq[j][i];
    let xi = one() * o[i];
    let yi = one() * v[i];
    let a = xi * v[j];
    let c = yi * o[j];
    vstd::arithmetic::power2::lemma_pow2_pos(1074);
    lemma_one();
    lemma_half_value();
    assert(rank_two(hq, one(), o, v)[j][i] == (e + a) + c);
    assert((e + a).finite() && a.finite() && c.finite()) by {
        reveal(sum_of);
    }
    assert(xi.finite() && yi.finite() && v[i].finite() && v[j].finite()) by {
        reveal(product_of);
    }
    lemma_vector_near(xpt, pq, o, i, b);
    lemma_vector_near(xpt, pq, o, j, b);
    let m = 2 * ((n + 1) * (b * b) * u);
    let p = values(pq);
    let si = exact_dot(values(row(xpt, i)), p, n);
    let sj = exact_dot(values(row(xpt, j)), p, n);
    let t = exact_sum(p, n);
    let hv = half().value();
    let ni = si * u + hv * t * oi;
    let nj = sj * u + hv * t * oj;
    let uu = u * u;
    let s4 = u * (u * u) * u;
    let k = n as int + 5;
    lemma_near_self(one(), u);
    lemma_near_self(o[i], b);
    lemma_near_self(o[j], b);
    assert(1 * 1 * u == u && 1 * uu * u == uu * u) by (nonlinear_arith);
    assert(2 * SHARP * u <= u * b) by (nonlinear_arith)
        requires
            b >= 2 * SHARP,
            u > 0,
    ;
    lemma_near_product(one(), o[i], 1, u, u, 0, 1, oi, b, 0);
    assert(2 * SHARP * (uu * u) <= u * m) by (nonlinear_arith)
        requires
            2 * SHARP * uu <= m,
            u > 0,
    ;
    lemma_near_product(one(), v[i], 1, u, u, 0, uu, ni, m, k);
    let ub = u * b;
    let um = u * m;
    assert(u * uu * u == s4);
    assert(uu * u * 1 * u == s4) by (nonlinear_arith)
        requires
            uu == u * u,
            s4 == u * (u * u) * u,
    ;
    assert(um * b == ub * m) by (nonlinear_arith)
        requires
            um == u * m,
            ub == u * b,
    ;
    assert(2 * SHARP * s4 <= ub * m) by {
        let um3 = uu * u;
        assert(2 * SHARP * um3 <= um);
        assert(s4 == um3 * u) by (nonlinear_arith)
            requires
                um3 == uu * u,
                uu == u * u,
                s4 == u * (u * u) * u,
        ;
        let b3 = b * b * b;
        assert(ub * m == 2 * (n + 1) * (b3 * uu)) by (nonlinear_arith)
            requires
                m == 2 * ((n + 1) * (b * b) * u),
                ub == u * b,
                b3 == b * b * b,
                uu == u * u,
        ;
        let x = b3 * uu;
        assert(x >= 2 * SHARP * s4) by (nonlinear_arith)
            requires
                x == b3 * uu,
                b3 >= 2 * SHARP * (u * u),
                uu == u * u,
                s4 == u * (u * u) * u,
                u > 0,
        ;
        assert(s4 > 0) by (nonlinear_arith)
            requires
                s4 == u * (u * u) * u,
                u > 0,
        ;
        assert(2 * (n + 1) * x >= x) by (nonlinear_arith)
            requires
                n >= 0,
                x >= 2 * SHARP * s4,
                s4 > 0,
        ;
    }
    lemma_near_product(xi, v[j], u, u * oi, ub, 2, uu, nj, m, k);
    lemma_near_product(yi, o[j], uu * u, u * ni, um, k + 2, 1, oj, b, 0);
    lemma_near_self(e, b);
    assert(s4 > 0) by (nonlinear_arith)
        requires
            s4 == u * (u * u) * u,
            u > 0,
    ;
    lemma_near_scaled(e, 1, e.value(), b, 0, s4);
    assert(1 * s4 == s4) by (nonlinear_arith);
    lemma_near_sum(e, a, s4, e.value() * s4, b * s4, 0, u * oi * nj, ub * m, k + 4);
    lemma_near_sum(
        e + a,
        c,
        s4,
        e.value() * s4 + u * oi * nj,
        b * s4 + ub * m,
        k + 5,
        u * ni * oj,
        um * b,
        k + 4,
    );
    lemma_recounted(xpt, pq, -oi, -oj, i, j, n);
    lemma_change(si, sj, t, hv, oi, oj, u);
    let g = si * oj + sj * oi + t * (oi * oj);
    assert(implicit_entry(xpt, pq, -oi, -oj, i, j, n) - implicit_entry(xpt, pq, 0, 0, i, j, n)
        == g) by {
        assert(si * (-oj) == -(si * oj) && sj * (-oi) == -(sj * oi) && (-oi) * (-oj) == oi * oj)
            by (nonlinear_arith);
    }
    assert(u * oi * nj + u * ni * oj == g * u * u) by (nonlinear_arith)
        requires
            ni * oj + nj * oi == g * u,
    ;
    assert(b * s4 + ub * m + um * b == b * s4 + 2 * (u * b * m));
    crate::float::calculus::lemma_near_wider(
        (e + a) + c,
        s4,
        e.value() * s4 + g * u * u,
        b * s4 + 2 * (u * b * m),
        k + 6,
        b * s4 + 2 * (u * b * m),
        n as int + 13,
    );
}

} // verus!
