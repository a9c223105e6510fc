//! What the update of the model makes of its coefficients.
use vstd::prelude::*;

use crate::consts::ten;
use crate::consts::tenth;
use crate::consts::zero;
use crate::float::arith::lemma_fields;
use crate::float::arith::product_of;
use crate::float::arith::sum_of;
use crate::float::calculus::lemma_near_product;
use crate::float::calculus::lemma_near_scaled;
use crate::float::calculus::lemma_near_self;
use crate::float::calculus::lemma_near_sum;
use crate::float::calculus::near;
use crate::float::calculus::MANY;
use crate::float::convert::unity;
use crate::float::error::size;
use crate::float::error::SHARP;
use crate::float::order::at_most;
use crate::float::order::below;
use crate::float::order::max_of;
use crate::float::order::min_of;
use crate::float::F64;
use crate::linalg::accuracy::all_near;
use crate::linalg::accuracy::exact_dot;
use crate::linalg::accuracy::lemma_all_near;
use crate::linalg::accuracy::lemma_dot_finite;
use crate::linalg::accuracy::lemma_dot_near;
use crate::linalg::accuracy::lemma_matvec_near;
use crate::linalg::accuracy::lemma_vecmat_near;
use crate::linalg::accuracy::values;
use crate::linalg::accuracy::within_size;
use crate::linalg::matvec;
use crate::linalg::vecmat;
use crate::mat::constant_mat;
use crate::mat::row;
use crate::powalg::accuracy::exact_implicit;
use crate::powalg::accuracy::lemma_implicit_near;
use crate::powalg::accuracy::points_within;
use crate::powalg::hessian_mul;
use crate::powalg::implicit_mul;
use crate::update::alternative_model;
use crate::update::formula::ample;
use crate::update::formula::fits;
use crate::update::model_updated;
use crate::update::next_test;
use crate::update::pq_increments;
use crate::update::projected;
use crate::update::Quadratic;
use crate::vector::dot;
use crate::vector::plus;
use crate::vector::products;

verus! {

/// A number plus a product of three.
proof fn lemma_plus_three(e: F64, p: F64, x: F64, y: F64, b: int)
    requires
        ample(b),
        fits(e, b),
        fits(p, b),
        fits(x, b),
        fits(y, b),
        (e + p * x * y).finite(),
    ensures
        near(
            e + p * x * y,
            (unity() * unity()) as int,
            e.value() * (unity() * unity()) + p.value() * x.value() * y.value(),
            b * (unity() * unity()) + b * b * b,
            5,
        ),
{
    let u = unity() as int;
    vstd::arithmetic::power2::lemma_pow2_pos(1074);
    assert((p * x * y).finite() && (p * x).finite()) by {
        reveal(sum_of);
        reveal(product_of);
    }
    lemma_near_self(e, b);
    lemma_near_self(p, b);
    lemma_near_self(x, b);
    lemma_near_self(y, b);
    assert(1 * 1 * u == u) by (nonlinear_arith);
    lemma_near_product(p, x, 1, p.value(), b, 0, 1, x.value(), b, 0);
    assert(u * 1 * u == u * u) by (nonlinear_arith);
    lemma_near_product(p * x, y, u, p.value() * x.value(), b * b, 2, 1, y.value(), b, 0);
    let uu = u * u;
    assert(uu > 0) by (nonlinear_arith)
        requires
            uu == u * u,
            u > 0,
    ;
    lemma_near_scaled(e, 1, e.value(), b, 0, uu);
    assert(1 * uu == uu) by (nonlinear_arith);
    lemma_near_sum(
        e,
        p * x * y,
        uu,
        e.value() * uu,
        b * uu,
        0,
        p.value() * x.value() * y.value(),
        b * b * b,
        4,
    );
}

/// The explicit Hessian takes up the part of the point that leaves: its entries grow by the
/// products of the coordinates of that point with its coefficient, up to rounding, and it stays
/// symmetric.
pub proof fn lemma_hq_formula(
    q: Quadratic,
    knew: int,
    ximproved: bool,
    bmat: Seq<Seq<F64>>,
    d: Seq<F64>,
    moderr: F64,
    xdrop: Seq<F64>,
    xosav: Seq<F64>,
    xpt: Seq<Seq<F64>>,
    zmat: Seq<Seq<F64>>,
    i: int,
    j: int,
    b: int,
)
    requires
        0 <= j <= i < q.hq.len(),
        q.hq[j].len() == q.hq.len(),
        ample(b),
        fits(q.hq[j][i], b),
        fits(q.pq[knew], b),
        fits(xdrop[i], b),
        fits(xdrop[j], b),
        ({
            let m = model_updated(q, knew, ximproved, bmat, d, moderr, xdrop, xosav, xpt, zmat);
            m.hq[j][i].finite()
        }),
    ensures
        ({
            let m = model_updated(q, knew, ximproved, bmat, d, moderr, xdrop, xosav, xpt, zmat);
            &&& m.hq[i][j] == m.hq[j][i]
            &&& near(
                m.hq[j][i],
                (unity() * unity()) as int,
                q.hq[j][i].value() * (unity() * unity()) + q.pq[knew].value() * xdrop[i].value()
                    * xdrop[j].value(),
                b * (unity() * unity()) + b * b * b,
                5,
            )
        }),
{
    lemma_plus_three(q.hq[j][i], q.pq[knew], xdrop[i], xdrop[j], b);
}

/// The implicit coefficients change by the error of the model times those of the Lagrange function
/// of the point that comes, after that of the point that leaves is set to zero.
pub proof fn lemma_pq_formula(
    q: Quadratic,
    knew: int,
    ximproved: bool,
    bmat: Seq<Seq<F64>>,
    d: Seq<F64>,
    moderr: F64,
    xdrop: Seq<F64>,
    xosav: Seq<F64>,
    xpt: Seq<Seq<F64>>,
    zmat: Seq<Seq<F64>>,
    k: int,
    b: int,
)
    requires
        0 <= knew < q.pq.len(),
        0 <= k < q.pq.len(),
        0 < zmat.len(),
        zmat.len() + 8 <= MANY,
        ample(b),
        fits(q.pq[k], b),
        fits(moderr, b),
        within_size(row(zmat, k), b, zmat.len()),
        within_size(row(zmat, knew), b, zmat.len()),
        ({
            let m = model_updated(q, knew, ximproved, bmat, d, moderr, xdrop, xosav, xpt, zmat);
            m.pq[k].finite()
        }),
    ensures
        ({
            let m = model_updated(q, knew, ximproved, bmat, d, moderr, xdrop, xosav, xpt, zmat);
            let old = if k == knew {
                0
            } else {
                q.pq[k].value()
            };
            let n = zmat.len();
            near(
                m.pq[k],
                (unity() * unity()) as int,
                old * (unity() * unity()) + moderr.value() * exact_dot(
                    values(row(zmat, k)),
                    values(row(zmat, knew)),
                    n,
                ),
                b * (unity() * unity()) + b * ((n + 1) * (b * b)),
                n as int + 5,
            )
        }),
{
    let u = unity() as int;
    let n = zmat.len();
    let y = row(zmat, knew);
    let g = matvec(zmat, y, q.pq.len())[k];
    let e = q.pq.update(knew, zero())[k];
    let m = model_updated(q, knew, ximproved, bmat, d, moderr, xdrop, xosav, xpt, zmat);
    vstd::arithmetic::power2::lemma_pow2_pos(1074);
    lemma_fields(0);
    assert(m.pq[k] == e + moderr * g);
    assert((moderr * g).finite() && g.finite() && e.finite()) by {
        reveal(sum_of);
        reveal(product_of);
    }
    lemma_matvec_near(zmat, y, q.pq.len(), b, b, k);
    lemma_near_self(moderr, b);
    lemma_near_self(e, b);
    let ex = exact_dot(values(row(zmat, k)), values(y), n);
    let w = (n + 1) * (b * b);
    assert(1 * u * u == u * u) by (nonlinear_arith);
    assert(2 * SHARP * (u * u) <= b * w) by (nonlinear_arith)
        requires
            b * b * b >= 2 * SHARP * (u * u),
            w == (n + 1) * (b * b),
            n >= 0,
            b > 0,
    ;
    lemma_near_product(moderr, g, 1, moderr.value(), b, 0, u, ex, w, n as int + 2);
    let uu = u * u;
    assert(uu > 0) by (nonlinear_arith)
        requires
            uu == u * u,
            u > 0,
    ;
    lemma_near_scaled(e, 1, e.value(), b, 0, uu);
    assert(1 * uu == uu) by (nonlinear_arith);
    lemma_near_sum(
        e,
        moderr * g,
        uu,
        e.value() * uu,
        b * uu,
        0,
        moderr.value() * ex,
        b * w,
        n as int + 4,
    );
}

/// A bound for the sizes of numbers that is large enough for products of six of them.
pub open spec fn ample_more(b: int) -> bool {
    let u = unity() as int;
    &&& ample(b)
    &&& b * b * b * b * b >= 2 * SHARP * (u * u * u * u)
    &&& b * b * b * b * b * b >= 2 * SHARP * (u * u * u * u * u)
}

/// The exact coefficients of the Lagrange function of point `knew`, times the error of the model.
pub open spec fn exact_increments(zmat: Seq<Seq<F64>>, knew: int, npt: nat, moderr: F64) -> Seq<
    int,
> {
    Seq::new(
        npt,
        |k: int|
            moderr.value() * exact_dot(
                values(row(zmat, k)),
                values(row(zmat, knew)),
                zmat.len(),
            ),
    )
}

/// The gradient of the model at the best point changes by the error of the model times the gradient
/// of the Lagrange function of the point that comes: its linear part, and the product of its
/// Hessian with the best point.
pub proof fn lemma_gradient_formula(
    q: Quadratic,
    knew: int,
    bmat: Seq<Seq<F64>>,
    d: Seq<F64>,
    moderr: F64,
    xdrop: Seq<F64>,
    xosav: Seq<F64>,
    xpt: Seq<Seq<F64>>,
    zmat: Seq<Seq<F64>>,
    i: int,
    b: int,
)
    requires
        0 <= i < q.gopt.len(),
        q.gopt.len() == xosav.len(),
        xpt.len() == q.pq.len(),
        0 < zmat.len(),
        zmat.len() + xpt.len() + xosav.len() + 20 <= MANY,
        ample_more(b),
        fits(q.gopt[i], b),
        fits(moderr, b),
        fits(bmat[knew][i], b),
        points_within(xpt, xosav.len(), b),
        within_size(xosav, b, xosav.len()),
        forall|k: int| 0 <= k < q.pq.len() ==> within_size(#[trigger] row(zmat, k), b, zmat.len()),
        0 <= knew < q.pq.len(),
        model_updated(q, knew, false, bmat, d, moderr, xdrop, xosav, xpt, zmat).gopt[i].finite(),
    ensures
        ({
            let u = unity() as int;
            let m = model_updated(q, knew, false, bmat, d, moderr, xdrop, xosav, xpt, zmat);
            let s = u * (u * u) * u * u;
            let w = b * ((zmat.len() + 1) * (b * b));
            near(
                m.gopt[i],
                s,
                q.gopt[i].value() * s + (moderr.value() * bmat[knew][i].value()) * (u * u * u * u)
                    + exact_implicit(
                    xosav,
                    xpt,
                    exact_increments(zmat, knew, xpt.len(), moderr),
                    i,
                ),
                b * s + (b * b) * (u * u * u * u) + (xpt.len() + 1) * (b * ((xosav.len() + 1) * (b
                    * b) * w)),
                (xosav.len() + zmat.len() + xpt.len() + 11) as int,
            )
        }),
{
    let u = unity() as int;
    let npt = xpt.len();
    let nz = zmat.len();
    let inc = pq_increments(zmat, knew, q.pq.len(), moderr);
    let a = exact_increments(zmat, knew, npt, moderr);
    let im = implicit_mul(xosav, xpt, inc);
    let m = model_updated(q, knew, false, bmat, d, moderr, xdrop, xosav, xpt, zmat);
    let e = bmat[knew][i];
    vstd::arithmetic::power2::lemma_pow2_pos(1074);
    assert(m.gopt[i] == (q.gopt[i] + moderr * e) + im[i]);
    assert((q.gopt[i] + moderr * e).finite() && (moderr * e).finite() && im[i].finite()) by {
        reveal(sum_of);
    }
    let w = (nz + 1) * (b * b);
    let t = u * u;
    let bw = b * w;
    assert(b > 0 && bw > 0) by (nonlinear_arith)
        requires
            b >= 2 * SHARP,
            bw == b * w,
            w == (nz + 1) * (b * b),
            nz >= 0,
    ;
    assert(t > 0) by (nonlinear_arith)
        requires
            t == u * u,
            u > 0,
    ;
    let r = row(xpt, i);
    let v = vecmat(xosav, xpt);
    let y = products(v, inc);
    assert(all_near(inc, t, a, bw, nz as int + 4, npt)) by {
        assert forall|k: int| 0 <= k < npt implies near(
            #[trigger] inc[k],
            t,
            a[k],
            bw,
            nz as int + 4,
        ) by {
            let g = matvec(zmat, row(zmat, knew), npt)[k];
            assert(inc[k] == moderr * g);
            assert(im[i] == dot(r, y));
            lemma_dot_finite(r, y, y.len(), k);
            assert(y[k] == v[k] * inc[k]);
            assert(inc[k].finite() && g.finite()) by {
                reveal(product_of);
            }
            assert(within_size(row(zmat, k), b, nz));
            assert(within_size(row(zmat, knew), b, nz));
            lemma_matvec_near(zmat, row(zmat, knew), npt, b, b, k);
            lemma_near_self(moderr, b);
            assert(1 * u * u == t) by (nonlinear_arith)
                requires
                    t == u * u,
            ;
            assert(2 * SHARP * t <= bw) by (nonlinear_arith)
                requires
                    b * b * b >= 2 * SHARP * (u * u),
                    t == u * u,
                    bw == b * w,
                    w == (nz + 1) * (b * b),
                    nz >= 0,
                    b > 0,
            ;
            lemma_near_product(
                moderr,
                g,
                1,
                moderr.value(),
                b,
                0,
                u,
                exact_dot(values(row(zmat, k)), values(row(zmat, knew)), nz),
                w,
                nz as int + 2,
            );
        }
    }
    let b3 = b * b * b;
    let u4 = u * u * u * u;
    let s = u * t * u * u;
    assert(bw >= b3) by (nonlinear_arith)
        requires
            bw == b * w,
            w == (nz + 1) * (b * b),
            b3 == b * b * b,
            nz >= 0,
            b > 0,
    ;
    assert(u * t * u == u4) by (nonlinear_arith)
        requires
            t == u * u,
            u4 == u * u * u * u,
    ;
    assert(2 * SHARP * (u * t * u) <= b * b * bw) by {
        let b5 = b * b * b * b * b;
        assert(b * b * b3 == b5) by (nonlinear_arith)
            requires
                b3 == b * b * b,
                b5 == b * b * b * b * b,
        ;
        assert(b * b * bw >= b * b * b3) by (nonlinear_arith)
            requires
                bw >= b3,
                b > 0,
        ;
    }
    assert(s == u4 * u) by (nonlinear_arith)
        requires
            s == u * t * u * u,
            u * t * u == u4,
    ;
    assert(2 * SHARP * s <= b * (b * b * bw)) by {
        let b6 = b * b * b * b * b * b;
        let c3 = b * b * b3;
        assert(b * c3 == b6) by (nonlinear_arith)
            requires
                b3 == b * b * b,
                c3 == b * b * b3,
                b6 == b * b * b * b * b * b,
        ;
        let c4 = b * b * bw;
        assert(c4 >= c3) by (nonlinear_arith)
            requires
                bw >= b3,
                c4 == b * b * bw,
                c3 == b * b * b3,
                b > 0,
        ;
        assert(b * c4 >= b * c3) by (nonlinear_arith)
            requires
                c4 >= c3,
                b > 0,
        ;
        assert(u4 * u == u * u * u * u * u) by (nonlinear_arith)
            requires
                u4 == u * u * u * u,
        ;
    }
    lemma_implicit_near(xosav, xpt, inc, a, t, bw, nz as int + 4, b, i);
    lemma_near_self(moderr, b);
    lemma_near_self(e, b);
    lemma_near_self(q.gopt[i], b);
    assert(1 * 1 * u == u) by (nonlinear_arith);
    lemma_near_product(moderr, e, 1, moderr.value(), b, 0, 1, e.value(), b, 0);
    assert(u4 > 0 && s > 0) by (nonlinear_arith)
        requires
            u4 == u * u * u * u,
            s == u4 * u,
            u > 0,
    ;
    let me = moderr.value() * e.value();
    lemma_near_scaled(moderr * e, u, me, b * b, 2, u4);
    assert(u * u4 == s) by (nonlinear_arith)
        requires
            s == u4 * u,
    ;
    lemma_near_scaled(q.gopt[i], 1, q.gopt[i].value(), b, 0, s);
    assert(1 * s == s) by (nonlinear_arith);
    let gv = q.gopt[i].value();
    lemma_near_sum(q.gopt[i], moderr * e, s, gv * s, b * s, 0, me * u4, (b * b) * u4, 2);
    let ex = exact_implicit(xosav, xpt, a, i);
    lemma_near_sum(
        q.gopt[i] + moderr * e,
        im[i],
        s,
        gv * s + me * u4,
        b * s + (b * b) * u4,
        3,
        ex,
        (npt + 1) * (b * ((xosav.len() + 1) * (b * b) * bw)),
        xosav.len() + (nz as int + 4) + 6 + npt,
    );
}

/// Where the point that comes is the best one, the gradient moves along the step: it is the one
/// without that move, plus the product of the new Hessian with the step.
pub proof fn lemma_gradient_moves(
    q: Quadratic,
    knew: int,
    bmat: Seq<Seq<F64>>,
    d: Seq<F64>,
    moderr: F64,
    xdrop: Seq<F64>,
    xosav: Seq<F64>,
    xpt: Seq<Seq<F64>>,
    zmat: Seq<Seq<F64>>,
)
    ensures
        ({
            let m = model_updated(q, knew, true, bmat, d, moderr, xdrop, xosav, xpt, zmat);
            let p = model_updated(q, knew, false, bmat, d, moderr, xdrop, xosav, xpt, zmat);
            &&& m.hq == p.hq
            &&& m.pq == p.pq
            &&& m.gopt == plus(p.gopt, hessian_mul(d, xpt, p.pq, p.hq))
        }),
{
}

/// The test of the alternative model counts iterations in a row: it starts anew where the step was
/// good or the gradient of the alternative model, without the entries that push out of the bounds,
/// is not much smaller than that of the model, and counts one more otherwise.
pub proof fn lemma_test_counts(
    itest: i32,
    ratio: F64,
    q: Quadratic,
    alt: Quadratic,
    xopt: Seq<F64>,
    sl: Seq<F64>,
    su: Seq<F64>,
)
    requires
        itest < i32::MAX,
        q.gopt.len() == xopt.len(),
        alt.gopt.len() == xopt.len(),
    ensures
        ({
            let t = next_test(itest, ratio, q, alt, xopt, sl, su);
            let pg = projected(q.gopt, xopt, sl, su);
            let pa = projected(alt.gopt, xopt, sl, su);
            &&& t == 0 || t == itest + 1
            &&& ratio > tenth() ==> t == 0
            &&& dot(pg, pg) < ten() * dot(pa, pa) ==> t == 0
            &&& !(ratio > tenth()) && dot(pg, pg) >= ten() * dot(pa, pa) ==> t == itest + 1
        }),
{
    reveal(at_most);
    reveal(below);
}

/// The gradient without the entries that push out of the bounds: away from the bounds it is the
/// gradient; at a lower bound only its negative part counts, along which the objective falls to the
/// inside, and at an upper bound only its positive part.
pub proof fn lemma_projected(g: Seq<F64>, xopt: Seq<F64>, sl: Seq<F64>, su: Seq<F64>, i: int)
    requires
        0 <= i < g.len(),
        !g[i].nan(),
        sl[i] < su[i],
        xopt[i].within(sl[i], su[i]),
    ensures
        ({
            let p = projected(g, xopt, sl, su)[i];
            &&& sl[i] < xopt[i] && xopt[i] < su[i] ==> p == g[i]
            &&& p.key() == g[i].key() || p.zero()
            &&& xopt[i] == sl[i] ==> p <= zero() && (g[i] <= zero() ==> p.key() == g[i].key())
            &&& xopt[i] == su[i] ==> p >= zero() && (g[i] >= zero() ==> p.key() == g[i].key())
        }),
{
    reveal(at_most);
    reveal(below);
    reveal(max_of);
    reveal(min_of);
}

/// The exact products of the columns of `z` with `f`.
pub open spec fn exact_columns(f: Seq<F64>, z: Seq<Seq<F64>>) -> Seq<int> {
    Seq::new(z.len(), |l: int| exact_dot(values(f), values(z[l]), z[l].len()))
}

/// The alternative model has no explicit Hessian; its implicit coefficients are the product of
/// `zmat`, its transpose and the values, up to rounding: those of the sum of the Lagrange
/// functions, each times the value at its point.
pub proof fn lemma_alternative_pq(
    bmat: Seq<Seq<F64>>,
    fval: Seq<F64>,
    xopt: Seq<F64>,
    xpt: Seq<Seq<F64>>,
    zmat: Seq<Seq<F64>>,
    k: int,
    b: int,
)
    requires
        0 <= k < fval.len(),
        points_within(zmat, fval.len(), b),
        within_size(fval, b, fval.len()),
        ample(b),
        zmat.len() + fval.len() + 10 <= MANY,
        alternative_model(bmat, fval, xopt, xpt, zmat).pq[k].finite(),
    ensures
        ({
            let m = alternative_model(bmat, fval, xopt, xpt, zmat);
            let n = fval.len();
            &&& m.hq == constant_mat(xopt.len(), xopt.len(), zero())
            &&& near(
                m.pq[k],
                (unity() * unity()) as int,
                exact_dot(values(row(zmat, k)), exact_columns(fval, zmat), zmat.len()),
                (zmat.len() + 1) * (b * ((n + 1) * (b * b))),
                (n + zmat.len() + 4) as int,
            )
        }),
{
    let u = unity() as int;
    let n = fval.len();
    let v = vecmat(fval, zmat);
    let r = row(zmat, k);
    let e = exact_columns(fval, zmat);
    let w = (n + 1) * (b * b);
    vstd::arithmetic::power2::lemma_pow2_pos(1074);
    assert(within_size(r, b, r.len())) by {
        assert forall|l: int| 0 <= l < r.len() implies (#[trigger] r[l]).finite() && size(
            r[l].value(),
        ) <= b by {
            assert(zmat[l].len() == n && within_size(zmat[l], b, n));
            assert(r[l] == zmat[l][k]);
        }
    }
    lemma_all_near(r, b);
    assert(all_near(v, u, e, w, n as int + 2, zmat.len())) by {
        assert forall|l: int| 0 <= l < zmat.len() implies near(
            #[trigger] v[l],
            u,
            e[l],
            w,
            n as int + 2,
        ) by {
            lemma_dot_finite(r, v, v.len(), l);
            assert(zmat[l].len() == n);
            lemma_vecmat_near(fval, zmat, b, b, l);
        }
    }
    assert(1 * u * u == u * u) by (nonlinear_arith);
    assert(2 * SHARP * (u * u) <= b * w) by (nonlinear_arith)
        requires
            b * b * b >= 2 * SHARP * (u * u),
            w == (n + 1) * (b * b),
            n >= 0,
            b > 0,
    ;
    lemma_dot_near(r, v, zmat.len(), 1, values(r), b, 0, u, e, w, n as int + 2);
}

} // verus!
