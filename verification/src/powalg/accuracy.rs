//! How accurate the products with the Hessian of the model are.
use vstd::prelude::*;

use crate::bobyqb::shift::lemma_half_value;
use crate::consts::half;
use crate::float::arith::product_of;
use crate::float::arith::sum_of;
use crate::float::calculus::lemma_near_product;
use crate::float::calculus::lemma_near_scaled;
use crate::float::calculus::lemma_near_self;
use crate::float::calculus::lemma_near_sum;
use crate::float::calculus::near;
use crate::float::calculus::MANY;
use crate::float::convert::unity;
use crate::float::error::size;
use crate::float::error::SHARP;
use crate::float::F64;
use crate::linalg::accuracy::all_near;
use crate::linalg::accuracy::exact_dot;
use crate::linalg::accuracy::lemma_added_finite;
use crate::linalg::accuracy::lemma_all_near;
use crate::linalg::accuracy::lemma_dot_added;
use crate::linalg::accuracy::lemma_dot_finite;
use crate::linalg::accuracy::lemma_dot_near;
use crate::linalg::accuracy::lemma_inner_product;
use crate::linalg::accuracy::lemma_vecmat_near;
use crate::linalg::accuracy::values;
use crate::linalg::accuracy::within_size;
use crate::linalg::turning::lemma_one;
use crate::linalg::vecmat;
use crate::mat::row;
use crate::powalg::beta_of;
use crate::powalg::denominators;
use crate::powalg::hessian_mul;
use crate::powalg::implicit_mul;
use crate::powalg::kernel_of;
use crate::powalg::model_increment;
use crate::powalg::vlag_of;
use crate::powalg::wcheck_of;
use crate::update::formula::ample;
use crate::update::formula::fits;
use crate::update::model::ample_more;
use crate::vector::dot;
use crate::vector::dot_from;
use crate::vector::products;

verus! {

/// The points have `n` coordinates, not larger than `b`.
pub open spec fn points_within(xpt: Seq<Seq<F64>>, n: nat, b: int) -> bool {
    forall|k: int|
        0 <= k < xpt.len() ==> (#[trigger] xpt[k]).len() == n && within_size(xpt[k], b, n)
}

/// The exact products of `x` with the points, times the coefficients `a`.
pub open spec fn exact_weights(x: Seq<F64>, xpt: Seq<Seq<F64>>, a: Seq<int>) -> Seq<int> {
    Seq::new(xpt.len(), |k: int| exact_dot(values(x), values(xpt[k]), x.len()) * a[k])
}

/// Entry `i` of the exact product of `x` with the Hessian that has the coefficients `a`: the sum of
/// the points, each times its coefficient and its inner product with `x`.
pub open spec fn exact_implicit(x: Seq<F64>, xpt: Seq<Seq<F64>>, a: Seq<int>, i: int) -> int {
    exact_dot(values(row(xpt, i)), exact_weights(x, xpt, a), xpt.len())
}

/// The product of a vector with the implicit part of the Hessian is the exact one, up to rounding,
/// for coefficients that are known up to rounding.
pub proof fn lemma_implicit_near(
    x: Seq<F64>,
    xpt: Seq<Seq<F64>>,
    pq: Seq<F64>,
    a: Seq<int>,
    t: int,
    m: int,
    c: int,
    b: int,
    i: int,
)
    requires
        0 <= i < x.len(),
        pq.len() == xpt.len(),
        points_within(xpt, x.len(), b),
        within_size(x, b, x.len()),
        all_near(pq, t, a, m, c, pq.len()),
        t > 0,
        m > 0,
        0 <= c,
        x.len() + xpt.len() + c + 8 <= MANY,
        2 * SHARP <= b,
        2 * SHARP * unity() <= b * b,
        2 * SHARP * (unity() * t * unity()) <= b * b * m,
        2 * SHARP * (unity() * t * unity() * unity()) <= b * (b * b * m),
        implicit_mul(x, xpt, pq)[i].finite(),
    ensures
        near(
            implicit_mul(x, xpt, pq)[i],
            unity() * t * unity() * unity(),
            exact_implicit(x, xpt, a, i),
            (xpt.len() + 1) * (b * ((x.len() + 1) * (b * b) * m)),
            x.len() + c + 6 + xpt.len(),
        ),
{
    let u = unity() as int;
    let n = x.len();
    let v = vecmat(x, xpt);
    let y = products(v, pq);
    let r = row(xpt, i);
    let e = exact_weights(x, xpt, a);
    let w = (n + 1) * (b * b);
    let s = u * t * u;
    vstd::arithmetic::power2::lemma_pow2_pos(1074);
    assert(s > 0) by (nonlinear_arith)
        requires
            s == u * t * u,
            u > 0,
            t > 0,
    ;
    assert(w * m >= b * b * m) by (nonlinear_arith)
        requires
            w == (n + 1) * (b * b),
            n >= 0,
            m >= 0,
    ;
    assert(all_near(y, s, e, w * m, n as int + c + 4, xpt.len())) by {
        assert forall|k: int| 0 <= k < xpt.len() implies near(
            #[trigger] y[k],
            s,
            e[k],
            w * m,
            n as int + c + 4,
        ) by {
            lemma_dot_finite(r, y, y.len(), k);
            assert(y[k] == v[k] * pq[k]);
            assert(v[k].finite()) by {
                reveal(product_of);
            }
            assert(xpt[k].len() == n);
            lemma_vecmat_near(x, xpt, b, b, k);
            assert(near(pq[k], t, a[k], m, c));
            lemma_near_product(
                v[k],
                pq[k],
                u,
                exact_dot(values(x), values(xpt[k]), n),
                w,
                n as int + 2,
                t,
                a[k],
                m,
                c,
            );
        }
    }
    assert(all_near(r, 1, values(r), b, 0, xpt.len())) by {
        assert(within_size(r, b, r.len())) by {
            assert forall|k: int| 0 <= k < r.len() implies (#[trigger] r[k]).finite()
                && size(r[k].value()) <= b by {
                assert(xpt[k].len() == n && within_size(xpt[k], b, n));
                assert(r[k] == xpt[k][i]);
            }
        }
        lemma_all_near(r, b);
    }
    assert(1 * s * u == u * t * u * u) by (nonlinear_arith)
        requires
            s == u * t * u,
    ;
    assert(2 * SHARP * (1 * s * u) <= b * (w * m)) by (nonlinear_arith)
        requires
            2 * SHARP * (1 * s * u) <= b * (b * b * m),
            w * m >= b * b * m,
            b > 0,
    ;
    lemma_dot_near(
        r,
        y,
        xpt.len(),
        1,
        values(r),
        b,
        0,
        s,
        e,
        w * m,
        n as int + c + 4,
    );
}

/// The exact inner products of `d` with the points.
pub open spec fn exact_products(d: Seq<F64>, xpt: Seq<Seq<F64>>) -> Seq<int> {
    Seq::new(xpt.len(), |k: int| exact_dot(values(d), values(xpt[k]), d.len()))
}

/// The products of two sequences of integers.
pub open spec fn times(a: Seq<int>, b: Seq<int>) -> Seq<int> {
    Seq::new(a.len(), |k: int| a[k] * b[k])
}

/// The exact gradient half a step on: twice the gradient plus the product of the explicit Hessian
/// with the step, halved; in units of the square of a smallest unit.
pub open spec fn exact_slopes(d: Seq<F64>, gq: Seq<F64>, hq: Seq<Seq<F64>>) -> Seq<int> {
    let u = unity() as int;
    Seq::new(
        d.len(),
        |i: int|
            gq[i].value() * (u * u) + half().value() * exact_dot(
                values(row(hq, i)),
                values(d),
                d.len(),
            ),
    )
}

/// The points are not larger than `b`, nor are the vectors and the explicit Hessian.
pub open spec fn model_within(
    d: Seq<F64>,
    xpt: Seq<Seq<F64>>,
    gq: Seq<F64>,
    pq: Seq<F64>,
    hq: Seq<Seq<F64>>,
    b: int,
) -> bool {
    &&& points_within(xpt, d.len(), b)
    &&& within_size(d, b, d.len())
    &&& gq.len() == d.len()
    &&& within_size(gq, b, d.len())
    &&& pq.len() == xpt.len()
    &&& within_size(pq, b, pq.len())
    &&& hq.len() == d.len()
    &&& forall|i: int| 0 <= i < d.len() ==> within_size(#[trigger] row(hq, i), b, d.len())
}

/// The implicit part of the change of the model: half the sum of the squared inner products of the
/// step with the points, each times its coefficient.
proof fn lemma_increment_implicit(
    d: Seq<F64>,
    xpt: Seq<Seq<F64>>,
    pq: Seq<F64>,
    b: int,
)
    requires
        points_within(xpt, d.len(), b),
        within_size(d, b, d.len()),
        pq.len() == xpt.len(),
        within_size(pq, b, pq.len()),
        ample(b),
        b * b * b * b * b >= 2 * SHARP * (unity() * unity() * unity() * unity()),
        2 * d.len() + xpt.len() + 20 <= MANY,
        (half() * dot(vecmat(d, xpt), products(pq, vecmat(d, xpt)))).finite(),
    ensures
        ({
            let u = unity() as int;
            let n = d.len();
            let e = exact_products(d, xpt);
            let w = (n + 1) * (b * b);
            near(
                half() * dot(vecmat(d, xpt), products(pq, vecmat(d, xpt))),
                1 * (u * (u * u) * u) * u,
                half().value() * exact_dot(e, times(values(pq), e), xpt.len()),
                u * ((xpt.len() + 1) * (w * (b * w))),
                (2 * n + xpt.len() + 10) as int,
            )
        }),
{
    let u = unity() as int;
    let n = d.len();
    let v = vecmat(d, xpt);
    let y = products(pq, v);
    let e = exact_products(d, xpt);
    let f = times(values(pq), e);
    let w = (n + 1) * (b * b);
    let uu = u * u;
    vstd::arithmetic::power2::lemma_pow2_pos(1074);
    lemma_half_value();
    lemma_one();
    assert(dot(v, y).finite()) by {
        reveal(product_of);
    }
    assert(w >= b * b) by (nonlinear_arith)
        requires
            w == (n + 1) * (b * b),
            n >= 0,
    ;
    let bw = b * w;
    let b3 = b * b * b;
    assert(bw >= b3) by (nonlinear_arith)
        requires
            w >= b * b,
            bw == b * w,
            b3 == b * b * b,
            b > 0,
    ;
    assert(all_near(v, u, e, w, n as int + 2, xpt.len()) && all_near(
        y,
        uu,
        f,
        bw,
        n as int + 4,
        xpt.len(),
    )) by {
        assert forall|k: int| 0 <= k < xpt.len() implies near(
            #[trigger] v[k],
            u,
            e[k],
            w,
            n as int + 2,
        ) by {
            lemma_dot_finite(v, y, y.len(), k);
            assert(xpt[k].len() == n);
            lemma_vecmat_near(d, xpt, b, b, k);
        }
        assert forall|k: int| 0 <= k < xpt.len() implies near(
            #[trigger] y[k],
            uu,
            f[k],
            bw,
            n as int + 4,
        ) by {
            lemma_dot_finite(v, y, y.len(), k);
            assert(y[k] == pq[k] * v[k]);
            assert(near(v[k], u, e[k], w, n as int + 2));
            lemma_near_self(pq[k], b);
            assert(1 * u * u == uu) by (nonlinear_arith)
                requires
                    uu == u * u,
            ;
            lemma_near_product(pq[k], v[k], 1, pq[k].value(), b, 0, u, e[k], w, n as int + 2);
        }
    }
    let u4 = u * uu * u;
    let b5 = b * b * b * b * b;
    assert(w * bw >= b5) by (nonlinear_arith)
        requires
            w >= b * b,
            bw >= b3,
            b3 == b * b * b,
            b5 == b * b * b * b * b,
            b > 0,
    ;
    assert(u4 == u * u * u * u) by (nonlinear_arith)
        requires
            u4 == u * uu * u,
            uu == u * u,
    ;
    assert(uu > 0) by (nonlinear_arith)
        requires
            uu == u * u,
            u > 0,
    ;
    lemma_dot_near(v, y, xpt.len(), u, e, w, n as int + 2, uu, f, bw, n as int + 4);
    lemma_near_self(half(), u);
    let m = (xpt.len() + 1) * (w * bw);
    assert(m >= w * bw) by (nonlinear_arith)
        requires
            m == (xpt.len() + 1) * (w * bw),
            w * bw >= 0,
    ;
    assert(2 * SHARP * (1 * u4 * u) <= u * m) by (nonlinear_arith)
        requires
            2 * SHARP * u4 <= m,
            u > 0,
    ;
    lemma_near_product(
        half(),
        dot(v, y),
        1,
        half().value(),
        u,
        0,
        u4,
        exact_dot(e, f, xpt.len()),
        m,
        (n as int + 2) + (n as int + 4) + 2 + xpt.len(),
    );
}

/// The part of the change of the model from its gradient and its explicit Hessian.
proof fn lemma_increment_explicit(d: Seq<F64>, gq: Seq<F64>, hq: Seq<Seq<F64>>, b: int)
    requires
        within_size(d, b, d.len()),
        gq.len() == d.len(),
        within_size(gq, b, d.len()),
        hq.len() == d.len(),
        forall|i: int| 0 <= i < d.len() ==> within_size(#[trigger] row(hq, i), b, d.len()),
        ample(b),
        2 * d.len() + 20 <= MANY,
        dot(d, Seq::new(d.len(), |i: int| gq[i] + half() * dot(row(hq, i), d))).finite(),
    ensures
        ({
            let u = unity() as int;
            let n = d.len();
            let w = (n + 1) * (b * b);
            near(
                dot(d, Seq::new(d.len(), |i: int| gq[i] + half() * dot(row(hq, i), d))),
                1 * (u * u) * u,
                exact_dot(values(d), exact_slopes(d, gq, hq), n),
                (n + 1) * (b * (b * (u * u) + u * w)),
                (2 * n + 7) as int,
            )
        }),
{
    let u = unity() as int;
    let n = d.len();
    let y = Seq::new(d.len(), |i: int| gq[i] + half() * dot(row(hq, i), d));
    let f = exact_slopes(d, gq, hq);
    let w = (n + 1) * (b * b);
    let uu = u * u;
    let m = b * uu + u * w;
    vstd::arithmetic::power2::lemma_pow2_pos(1074);
    lemma_half_value();
    lemma_one();
    assert(uu > 0) by (nonlinear_arith)
        requires
            uu == u * u,
            u > 0,
    ;
    assert(w >= b * b) by (nonlinear_arith)
        requires
            w == (n + 1) * (b * b),
            n >= 0,
    ;
    assert(all_near(y, uu, f, m, n as int + 5, n)) by {
        assert forall|i: int| 0 <= i < n implies near(
            #[trigger] y[i],
            uu,
            f[i],
            m,
            n as int + 5,
        ) by {
            lemma_dot_finite(d, y, y.len(), i);
            let r = row(hq, i);
            let h = dot(r, d);
            assert((half() * h).finite() && h.finite()) by {
                reveal(sum_of);
                reveal(product_of);
            }
            assert(within_size(r, b, n));
            lemma_inner_product(r, d, b, b);
            lemma_near_self(half(), u);
            assert(1 * u * u == uu) by (nonlinear_arith)
                requires
                    uu == u * u,
            ;
            assert(2 * SHARP * uu <= u * w) by (nonlinear_arith)
                requires
                    w >= b * b,
                    b * b >= 2 * SHARP * u,
                    uu == u * u,
                    u > 0,
            ;
            let ex = exact_dot(values(r), values(d), n);
            lemma_near_product(half(), h, 1, half().value(), u, 0, u, ex, w, n as int + 2);
            lemma_near_self(gq[i], b);
            lemma_near_scaled(gq[i], 1, gq[i].value(), b, 0, uu);
            assert(1 * uu == uu) by (nonlinear_arith);
            lemma_near_sum(
                gq[i],
                half() * h,
                uu,
                gq[i].value() * uu,
                b * uu,
                0,
                half().value() * ex,
                u * w,
                n as int + 4,
            );
        }
    }
    lemma_all_near(d, b);
    assert(2 * SHARP * (1 * uu * u) <= b * m) by {
        let b3 = b * b * b;
        assert(b * (u * w) >= u * b3) by (nonlinear_arith)
            requires
                w >= b * b,
                b3 == b * b * b,
                u > 0,
                b > 0,
        ;
        assert(u * b3 >= 2 * SHARP * (1 * uu * u)) by (nonlinear_arith)
            requires
                b3 >= 2 * SHARP * uu,
                u > 0,
        ;
        assert(b * m >= b * (u * w)) by (nonlinear_arith)
            requires
                m == b * uu + u * w,
                b > 0,
                uu > 0,
        ;
    }
    lemma_dot_near(d, y, n, 1, values(d), b, 0, uu, f, m, n as int + 5);
}

/// The change of the model by a step is the exact one, up to rounding: the gradient times the step,
/// plus half the product of the step with the explicit Hessian and the step, plus half the sum of
/// the squared inner products of the step with the points, each times its coefficient.
pub proof fn lemma_increment_near(
    d: Seq<F64>,
    xpt: Seq<Seq<F64>>,
    gq: Seq<F64>,
    pq: Seq<F64>,
    hq: Seq<Seq<F64>>,
    b: int,
)
    requires
        model_within(d, xpt, gq, pq, hq, b),
        ample(b),
        b * b * b * b * b >= 2 * SHARP * (unity() * unity() * unity() * unity()),
        2 * d.len() + xpt.len() + 20 <= MANY,
        model_increment(d, xpt, gq, pq, hq).finite(),
    ensures
        ({
            let u = unity() as int;
            let n = d.len();
            let e = exact_products(d, xpt);
            let w = (n + 1) * (b * b);
            near(
                model_increment(d, xpt, gq, pq, hq),
                1 * (u * (u * u) * u) * u,
                exact_dot(values(d), exact_slopes(d, gq, hq), n) * (u * u) + half().value()
                    * exact_dot(e, times(values(pq), e), xpt.len()),
                (n + 1) * (b * (b * (u * u) + u * w)) * (u * u) + u * ((xpt.len() + 1) * (w * (b
                    * w))),
                (2 * n + xpt.len() + 11) as int,
            )
        }),
{
    let u = unity() as int;
    let n = d.len();
    let slope = Seq::new(d.len(), |i: int| gq[i] + half() * dot(row(hq, i), d));
    let x = dot(d, slope);
    let y = half() * dot(vecmat(d, xpt), products(pq, vecmat(d, xpt)));
    vstd::arithmetic::power2::lemma_pow2_pos(1074);
    assert(model_increment(d, xpt, gq, pq, hq) == x + y);
    assert(x.finite() && y.finite()) by {
        reveal(sum_of);
    }
    lemma_increment_implicit(d, xpt, pq, b);
    lemma_increment_explicit(d, gq, hq, b);
    let w = (n + 1) * (b * b);
    let uu = u * u;
    assert(uu > 0) by (nonlinear_arith)
        requires
            uu == u * u,
            u > 0,
    ;
    let k = exact_dot(values(d), exact_slopes(d, gq, hq), n);
    let m = (n + 1) * (b * (b * uu + u * w));
    let s = 1 * (u * uu * u) * u;
    lemma_near_scaled(x, 1 * uu * u, k, m, (2 * n + 7) as int, uu);
    assert(1 * uu * u * uu == s) by (nonlinear_arith)
        requires
            s == 1 * (u * uu * u) * u,
            uu == u * u,
    ;
    let e = exact_products(d, xpt);
    lemma_near_sum(
        x,
        y,
        s,
        k * uu,
        m * uu,
        (2 * n + 7) as int,
        half().value() * exact_dot(e, times(values(pq), e), xpt.len()),
        u * ((xpt.len() + 1) * (w * (b * w))),
        (2 * n + xpt.len() + 10) as int,
    );
}

/// The exact first part of the vector `w` for the step `d` from point `kref`: the product of the
/// inner product of the step with each point and the one half a step on.
pub open spec fn exact_w(kref: int, d: Seq<F64>, xpt: Seq<Seq<F64>>) -> Seq<int> {
    let u = unity() as int;
    Seq::new(
        xpt.len(),
        |k: int|
            {
                let p = exact_dot(values(d), values(xpt[k]), d.len());
                let q = exact_dot(values(xpt[kref]), values(xpt[k]), d.len());
                p * (half().value() * p + q * u)
            },
    )
}

/// The first part of the vector `w` is the exact one, up to rounding.
pub(crate) proof fn lemma_w_near(kref: int, d: Seq<F64>, xpt: Seq<Seq<F64>>, b: int, k: int)
    requires
        0 <= kref < xpt.len(),
        0 <= k < xpt.len(),
        points_within(xpt, d.len(), b),
        within_size(d, b, d.len()),
        ample(b),
        2 * d.len() + 20 <= MANY,
        wcheck_of(kref, d, xpt)[k].finite(),
    ensures
        ({
            let u = unity() as int;
            let w = (d.len() + 1) * (b * b);
            near(
                wcheck_of(kref, d, xpt)[k],
                u * (u * u) * u,
                exact_w(kref, d, xpt)[k],
                w * (u * w + w * u),
                (2 * d.len() + 9) as int,
            )
        }),
{
    let u = unity() as int;
    let n = d.len();
    let w = (n + 1) * (b * b);
    let uu = u * u;
    let x = dot(d, xpt[k]);
    let y = dot(xpt[kref], xpt[k]);
    let h = half() * x;
    vstd::arithmetic::power2::lemma_pow2_pos(1074);
    lemma_half_value();
    lemma_one();
    assert(xpt[k].len() == n && xpt[kref].len() == n);
    assert(within_size(xpt[k], b, n) && within_size(xpt[kref], b, n));
    assert(wcheck_of(kref, d, xpt)[k] == x * (h + y));
    assert(x.finite() && (h + y).finite()) by {
        reveal(product_of);
    }
    assert(h.finite() && y.finite()) by {
        reveal(sum_of);
    }
    lemma_inner_product(d, xpt[k], b, b);
    lemma_inner_product(xpt[kref], xpt[k], b, b);
    let p = exact_dot(values(d), values(xpt[k]), n);
    let q = exact_dot(values(xpt[kref]), values(xpt[k]), n);
    lemma_near_self(half(), u);
    assert(w >= b * b) by (nonlinear_arith)
        requires
            w == (n + 1) * (b * b),
            n >= 0,
    ;
    assert(1 * u * u == uu) by (nonlinear_arith)
        requires
            uu == u * u,
    ;
    assert(2 * SHARP * uu <= u * w) by (nonlinear_arith)
        requires
            w >= b * b,
            b * b >= 2 * SHARP * u,
            uu == u * u,
            u > 0,
    ;
    let c = n as int + 2;
    lemma_near_product(half(), x, 1, half().value(), u, 0, u, p, w, c);
    lemma_near_scaled(y, u, q, w, c, u);
    lemma_near_sum(h, y, uu, half().value() * p, u * w, c + 2, q * u, w * u, c);
    let m = u * w + w * u;
    let u4 = u * uu * u;
    assert(2 * SHARP * u4 <= w * m) by {
        let b4 = b * b * b * b;
        assert(w * w >= b4) by (nonlinear_arith)
            requires
                w >= b * b,
                b4 == b * b * b * b,
                b > 0,
        ;
        assert(w * m == 2 * (u * (w * w))) by (nonlinear_arith)
            requires
                m == u * w + w * u,
        ;
        let ww = w * w;
        let u3 = u * u * u;
        assert(u * ww >= u * (2 * SHARP * u3)) by (nonlinear_arith)
            requires
                ww >= 2 * SHARP * u3,
                u > 0,
        ;
        assert(u * (2 * SHARP * u3) == 2 * SHARP * u4) by (nonlinear_arith)
            requires
                u3 == u * u * u,
                u4 == u * uu * u,
                uu == u * u,
        ;
    }
    lemma_near_product(x, h + y, u, p, w, c, uu, half().value() * p + q * u, m, c + 3);
}

/// The exact products of the first part of `w` with the columns of `zmat`.
pub open spec fn exact_wz(kref: int, d: Seq<F64>, xpt: Seq<Seq<F64>>, zmat: Seq<Seq<F64>>) -> Seq<
    int,
> {
    Seq::new(
        zmat.len(),
        |l: int| exact_dot(exact_w(kref, d, xpt), values(zmat[l]), zmat[l].len()),
    )
}

/// The leading part of the product of `H` with `w` is the exact one, up to rounding: the product of
/// `zmat`, its transpose and the first part of `w`, plus the product of the step with the column of
/// `bmat`.
pub proof fn lemma_kernel_near(
    kref: int,
    bmat: Seq<Seq<F64>>,
    d: Seq<F64>,
    xpt: Seq<Seq<F64>>,
    zmat: Seq<Seq<F64>>,
    j: int,
    b: int,
)
    requires
        0 <= kref < xpt.len(),
        0 <= j < xpt.len(),
        points_within(xpt, d.len(), b),
        points_within(zmat, xpt.len(), b),
        within_size(d, b, d.len()),
        bmat[j].len() == d.len(),
        within_size(bmat[j], b, d.len()),
        ample_more(b),
        2 * d.len() + xpt.len() + zmat.len() + 40 <= MANY,
        0 < zmat.len(),
        kernel_of(kref, bmat, d, xpt, zmat)[j].finite(),
    ensures
        ({
            let u = unity() as int;
            let n = d.len();
            let w = (n + 1) * (b * b);
            let mw = w * (u * w + w * u);
            let s4 = u * (u * u) * u;
            near(
                kernel_of(kref, bmat, d, xpt, zmat)[j],
                1 * (s4 * 1 * u) * u,
                exact_dot(values(row(zmat, j)), exact_wz(kref, d, xpt, zmat), zmat.len())
                    + exact_dot(values(d), values(bmat[j]), n) * (s4 * u),
                (zmat.len() + 1) * (b * ((xpt.len() + 1) * (mw * b))) + w * (s4 * u),
                (2 * n + xpt.len() + zmat.len() + 14) as int,
            )
        }),
{
    let u = unity() as int;
    let n = d.len();
    let npt = xpt.len();
    let nz = zmat.len();
    let w = (n + 1) * (b * b);
    let mw = w * (u * w + w * u);
    let s4 = u * (u * u) * u;
    let wc = wcheck_of(kref, d, xpt);
    let wz = vecmat(wc, zmat);
    let r = row(zmat, j);
    let x = dot(r, wz);
    let y = dot(d, bmat[j]);
    vstd::arithmetic::power2::lemma_pow2_pos(1074);
    assert(kernel_of(kref, bmat, d, xpt, zmat)[j] == x + y);
    assert(x.finite() && y.finite()) by {
        reveal(sum_of);
    }
    assert(w >= b * b) by (nonlinear_arith)
        requires
            w == (n + 1) * (b * b),
            n >= 0,
    ;
    let b4 = b * b * b * b;
    assert(mw >= u * b4) by (nonlinear_arith)
        requires
            w >= b * b,
            mw == w * (u * w + w * u),
            b4 == b * b * b * b,
            b > 0,
            u > 0,
    ;
    assert(s4 > 0) by (nonlinear_arith)
        requires
            s4 == u * (u * u) * u,
            u > 0,
    ;
    let e = exact_w(kref, d, xpt);
    let cw = (2 * n + 9) as int;
    assert(all_near(wc, s4, e, mw, cw, npt)) by {
        lemma_dot_finite(r, wz, wz.len(), 0);
        assert(wz[0] == dot(wc, zmat[0]));
        assert(zmat[0].len() == npt);
        assert forall|k: int| 0 <= k < npt implies near(#[trigger] wc[k], s4, e[k], mw, cw) by {
            lemma_dot_finite(wc, zmat[0], npt, k);
            lemma_w_near(kref, d, xpt, b, k);
        }
    }
    let s5 = s4 * 1 * u;
    let mz = (npt + 1) * (mw * b);
    let ez = exact_wz(kref, d, xpt, zmat);
    let b5 = b * b * b * b * b;
    assert(mw * b >= u * b5) by (nonlinear_arith)
        requires
            mw >= u * b4,
            b4 == b * b * b * b,
            b5 == b * b * b * b * b,
            b > 0,
    ;
    let u4 = u * u * u * u;
    assert(s4 == u4) by (nonlinear_arith)
        requires
            s4 == u * (u * u) * u,
            u4 == u * u * u * u,
    ;
    assert(2 * SHARP * s5 <= mw * b) by (nonlinear_arith)
        requires
            mw * b >= u * b5,
            b5 >= 2 * SHARP * u4,
            s5 == s4 * 1 * u,
            s4 == u4,
            u > 0,
    ;
    assert(all_near(wz, s5, ez, mz, cw + 2 + npt, nz)) by {
        assert forall|l: int| 0 <= l < nz implies near(
            #[trigger] wz[l],
            s5,
            ez[l],
            mz,
            cw + 2 + npt,
        ) by {
            lemma_dot_finite(r, wz, wz.len(), l);
            assert(zmat[l].len() == npt && within_size(zmat[l], b, npt));
            lemma_all_near(zmat[l], b);
            lemma_dot_near(wc, zmat[l], npt, s4, e, mw, cw, 1, values(zmat[l]), b, 0);
        }
    }
    assert(within_size(r, b, r.len())) by {
        assert forall|l: int| 0 <= l < r.len() implies (#[trigger] r[l]).finite() && size(
            r[l].value(),
        ) <= b by {
            assert(zmat[l].len() == npt && within_size(zmat[l], b, npt));
            assert(r[l] == zmat[l][j]);
        }
    }
    lemma_all_near(r, b);
    let s6 = 1 * s5 * u;
    let b6 = b * b * b * b * b * b;
    assert(mz >= mw * b) by (nonlinear_arith)
        requires
            mz == (npt + 1) * (mw * b),
            mw * b >= 0,
            npt >= 0,
    ;
    let z = mw * b;
    assert(b * mz >= u * b6) by (nonlinear_arith)
        requires
            mz >= z,
            z >= u * b5,
            b5 == b * b * b * b * b,
            b6 == b * b * b * b * b * b,
            b > 0,
    ;
    let u5 = u * u * u * u * u;
    assert(s6 == u5 * u) by (nonlinear_arith)
        requires
            s6 == 1 * s5 * u,
            s5 == s4 * 1 * u,
            s4 == u4,
            u4 == u * u * u * u,
            u5 == u * u * u * u * u,
    ;
    assert(2 * SHARP * s6 <= b * mz) by (nonlinear_arith)
        requires
            b * mz >= u * b6,
            b6 >= 2 * SHARP * u5,
            s6 == u5 * u,
            u > 0,
    ;
    assert(s5 > 0) by (nonlinear_arith)
        requires
            s5 == s4 * 1 * u,
            s4 > 0,
            u > 0,
    ;
    lemma_dot_near(r, wz, nz, 1, values(r), b, 0, s5, ez, mz, cw + 2 + npt);
    lemma_inner_product(d, bmat[j], b, b);
    let t = s4 * u;
    assert(t > 0) by (nonlinear_arith)
        requires
            t == s4 * u,
            s4 > 0,
            u > 0,
    ;
    let ey = exact_dot(values(d), values(bmat[j]), n);
    lemma_near_scaled(y, u, ey, w, n as int + 2, t);
    assert(u * t == s6) by (nonlinear_arith)
        requires
            t == s4 * u,
            s6 == 1 * s5 * u,
            s5 == s4 * 1 * u,
    ;
    lemma_near_sum(
        x,
        y,
        s6,
        exact_dot(values(r), ez, nz),
        (nz + 1) * (b * mz),
        cw + 2 + npt + 2 + nz,
        ey * t,
        w * t,
        n as int + 2,
    );
}

/// The denominator for replacing point `k` is the exact one, up to rounding: the squared length of
/// row `k` of `zmat` times `beta`, plus the square of the Lagrange value.
pub proof fn lemma_denominator_near(
    kref: int,
    bmat: Seq<Seq<F64>>,
    d: Seq<F64>,
    xpt: Seq<Seq<F64>>,
    zmat: Seq<Seq<F64>>,
    k: int,
    b: int,
)
    requires
        0 <= k < xpt.len(),
        ample(b),
        within_size(row(zmat, k), b, zmat.len()),
        fits(beta_of(kref, bmat, d, xpt, zmat), b),
        fits(vlag_of(kref, bmat, d, xpt, zmat)[k], b),
        zmat.len() + 10 <= MANY,
        denominators(kref, bmat, d, xpt, zmat)[k].finite(),
    ensures
        ({
            let u = unity() as int;
            let r = values(row(zmat, k));
            let beta = beta_of(kref, bmat, d, xpt, zmat).value();
            let v = vlag_of(kref, bmat, d, xpt, zmat)[k].value();
            near(
                denominators(kref, bmat, d, xpt, zmat)[k],
                u * u,
                exact_dot(r, r, zmat.len()) * beta + v * v * u,
                (zmat.len() + 1) * (b * b) * b + b * b * u,
                zmat.len() as int + 5,
            )
        }),
{
    let u = unity() as int;
    let n = zmat.len();
    let r = row(zmat, k);
    let beta = beta_of(kref, bmat, d, xpt, zmat);
    let v = vlag_of(kref, bmat, d, xpt, zmat)[k];
    let g = dot(r, r);
    vstd::arithmetic::power2::lemma_pow2_pos(1074);
    assert(denominators(kref, bmat, d, xpt, zmat)[k] == g * beta + v * v);
    assert((g * beta).finite() && (v * v).finite() && g.finite()) by {
        reveal(sum_of);
        reveal(product_of);
    }
    lemma_inner_product(r, r, b, b);
    lemma_near_self(beta, b);
    lemma_near_self(v, b);
    let w = (n + 1) * (b * b);
    let ex = exact_dot(values(r), values(r), n);
    assert(u * 1 * u == u * u) by (nonlinear_arith);
    assert(2 * SHARP * (u * u) <= w * b) by (nonlinear_arith)
        requires
            b * b * b >= 2 * SHARP * (u * u),
            w == (n + 1) * (b * b),
            n >= 0,
            b > 0,
    ;
    lemma_near_product(g, beta, u, ex, w, n as int + 2, 1, beta.value(), b, 0);
    assert(1 * 1 * u == u) by (nonlinear_arith);
    lemma_near_product(v, v, 1, v.value(), b, 0, 1, v.value(), b, 0);
    lemma_near_scaled(v * v, u, v.value() * v.value(), b * b, 2, u);
    lemma_near_sum(
        g * beta,
        v * v,
        u * u,
        ex * beta.value(),
        w * b,
        n as int + 4,
        v.value() * v.value() * u,
        b * b * u,
        2,
    );
}

/// The values times a number.
pub open spec fn values_times(x: Seq<F64>, t: int) -> Seq<int> {
    Seq::new(x.len(), |i: int| x[i].value() * t)
}

/// The product of a vector with the Hessian of the model is the exact one, up to rounding: the sum
/// of the points, each times its coefficient and its inner product with the vector, plus the
/// product with the explicit Hessian.
pub proof fn lemma_hessian_near(
    x: Seq<F64>,
    xpt: Seq<Seq<F64>>,
    pq: Seq<F64>,
    hq: Seq<Seq<F64>>,
    i: int,
    b: int,
)
    requires
        0 <= i < x.len(),
        pq.len() == xpt.len(),
        points_within(xpt, x.len(), b),
        within_size(x, b, x.len()),
        within_size(pq, b, pq.len()),
        hq.len() == x.len(),
        within_size(row(hq, i), b, x.len()),
        2 * x.len() + xpt.len() + 20 <= MANY,
        ample(b),
        hessian_mul(x, xpt, pq, hq)[i].finite(),
    ensures
        ({
            let u = unity() as int;
            let n = x.len();
            near(
                hessian_mul(x, xpt, pq, hq)[i],
                u * u * 1 * u,
                exact_implicit(x, xpt, values(pq), i) + exact_dot(
                    values_times(row(hq, i), u * u),
                    values(x),
                    n,
                ),
                (xpt.len() + 1) * (b * ((n + 1) * (b * b) * b)) + n * (b * (u * u) * b),
                (2 * n + xpt.len() + 6) as int,
            )
        }),
{
    let u = unity() as int;
    let n = x.len();
    let r = row(hq, i);
    let acc = implicit_mul(x, xpt, pq)[i];
    let uu = u * u;
    vstd::arithmetic::power2::lemma_pow2_pos(1074);
    assert(uu > 0) by (nonlinear_arith)
        requires
            uu == u * u,
            u > 0,
    ;
    assert(hessian_mul(x, xpt, pq, hq)[i] == dot_from(acc, r, x, n));
    lemma_added_finite(acc, r, x, n);
    lemma_all_near(pq, b);
    lemma_all_near(x, b);
    assert(u * 1 * u == uu) by (nonlinear_arith)
        requires
            uu == u * u,
    ;
    assert(b * b * b == b * (b * b)) by (nonlinear_arith);
    assert(2 * SHARP * (u * 1 * u * u) <= b * (b * b * b)) by {
        let b4 = b * b * b * b;
        let b3 = b * b * b;
        assert(b * b3 == b4) by (nonlinear_arith)
            requires
                b3 == b * b * b,
                b4 == b * b * b * b,
        ;
        assert(u * 1 * u * u == u * u * u) by (nonlinear_arith);
    }
    lemma_implicit_near(x, xpt, pq, values(pq), 1, b, 0, b, i);
    let e = values_times(r, uu);
    let s = uu * 1 * u;
    assert(u * 1 * u * u == s) by (nonlinear_arith)
        requires
            s == uu * 1 * u,
            uu == u * u,
    ;
    assert(all_near(r, uu, e, b * uu, 0, n)) by {
        assert forall|j: int| 0 <= j < n implies near(#[trigger] r[j], uu, e[j], b * uu, 0) by {
            lemma_near_self(r[j], b);
            lemma_near_scaled(r[j], 1, r[j].value(), b, 0, uu);
            assert(1 * uu == uu) by (nonlinear_arith);
        }
    }
    assert(2 * SHARP * s <= (b * uu) * b) by (nonlinear_arith)
        requires
            s == uu * 1 * u,
            b * b >= 2 * SHARP * u,
            uu > 0,
    ;
    lemma_dot_added(
        acc,
        r,
        x,
        n,
        uu,
        e,
        b * uu,
        0,
        1,
        values(x),
        b,
        0,
        exact_implicit(x, xpt, values(pq), i),
        (xpt.len() + 1) * (b * ((n + 1) * (b * b) * b)),
        n as int + 0 + 6 + xpt.len(),
    );
}

} // verus!
