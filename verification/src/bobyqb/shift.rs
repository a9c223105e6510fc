//! What a move of the base point keeps: the second derivatives of the model.
use vstd::arithmetic::power2::pow2;
use vstd::prelude::*;

use crate::bobyqb::shift_y;
use crate::bobyqb::shifted_bmat;
use crate::bobyqb::shifted_hq;
use crate::consts::half;
use crate::consts::quarter;
use crate::float::arith::product_of;
use crate::float::arith::sum_of;
use crate::float::calculus::lemma_near_difference;
use crate::float::calculus::lemma_near_product;
use crate::float::calculus::lemma_near_scaled;
use crate::float::calculus::lemma_near_self;
use crate::float::calculus::lemma_near_sum;
use crate::float::calculus::near;
use crate::float::calculus::MANY;
use crate::float::convert::unity;
use crate::float::error::size;
use crate::float::error::SHARP;
use crate::float::expo;
use crate::float::near::lemma_negation_value;
use crate::float::sig;
use crate::float::F64;
use crate::linalg::accuracy::all_near;
use crate::linalg::accuracy::exact_dot;
use crate::linalg::accuracy::exact_sum;
use crate::linalg::accuracy::lemma_all_near;
use crate::linalg::accuracy::lemma_dot_finite;
use crate::linalg::accuracy::lemma_dot_near;
use crate::linalg::accuracy::lemma_inner_product;
use crate::linalg::accuracy::lemma_sum_near;
use crate::linalg::accuracy::values;
use crate::linalg::accuracy::within_size;
use crate::linalg::matmat;
use crate::linalg::transposed;
use crate::linalg::turning::lemma_one;
use crate::mat::row;
use crate::powalg::accuracy::points_within;
use crate::update::formula::ample;
use crate::update::formula::fits;
use crate::vector::dot;
use crate::vector::total;

verus! {

/// The second derivative by variables `i` and `j` of the implicit part of a model, with the points
/// counted from `o`: the sum of the products of two coordinates of each of the first `k` points
/// with its coefficient, in exact numbers.
pub open spec fn implicit_entry(
    xpt: Seq<Seq<F64>>,
    pq: Seq<F64>,
    oi: int,
    oj: int,
    i: int,
    j: int,
    k: nat,
) -> int
    decreases k,
{
    if k == 0 {
        0
    } else {
        implicit_entry(xpt, pq, oi, oj, i, j, (k - 1) as nat) + pq[k - 1].value() * ((xpt[k
            - 1][i].value() - oi) * (xpt[k - 1][j].value() - oj))
    }
}

/// How the implicit part changes with the place that the points are counted from.
pub(crate) proof fn lemma_recounted(
    xpt: Seq<Seq<F64>>,
    pq: Seq<F64>,
    oi: int,
    oj: int,
    i: int,
    j: int,
    k: nat,
)
    requires
        k <= xpt.len(),
        k <= pq.len(),
    ensures
        ({
            let p = values(pq);
            let si = exact_dot(values(row(xpt, i)), p, k);
            let sj = exact_dot(values(row(xpt, j)), p, k);
            implicit_entry(xpt, pq, 0, 0, i, j, k) - implicit_entry(xpt, pq, oi, oj, i, j, k) == si
                * oj + sj * oi - exact_sum(p, k) * (oi * oj)
        }),
    decreases k,
{
    if k > 0 {
        let h = (k - 1) as nat;
        lemma_recounted(xpt, pq, oi, oj, i, j, h);
        let p = pq[h as int].value();
        let a = xpt[h as int][i].value();
        let c = xpt[h as int][j].value();
        let vp = values(pq);
        let ri = values(row(xpt, i));
        let rj = values(row(xpt, j));
        assert(ri[h as int] == a && rj[h as int] == c && vp[h as int] == p);
        let si = exact_dot(ri, vp, h);
        let sj = exact_dot(rj, vp, h);
        let t = exact_sum(vp, h);
        assert((si + a * p) * oj == si * oj + (a * p) * oj) by (nonlinear_arith);
        assert((sj + c * p) * oi == sj * oi + (c * p) * oi) by (nonlinear_arith);
        let oo = oi * oj;
        assert((t + p) * oo == t * oo + p * oo) by (nonlinear_arith);
        let ac = a * c;
        let ao = a * oj;
        let co = c * oi;
        assert((a - oi) * (c - oj) == ac - ao - co + oo) by (nonlinear_arith)
            requires
                ac == a * c,
                ao == a * oj,
                co == c * oi,
                oo == oi * oj,
        ;
        assert(p * (ac - ao - co + oo) == p * ac - p * ao - p * co + p * oo) by (nonlinear_arith);
        assert(p * ao == (a * p) * oj) by (nonlinear_arith)
            requires
                ao == a * oj,
        ;
        assert(p * co == (c * p) * oi) by (nonlinear_arith)
            requires
                co == c * oi,
        ;
        assert((a - 0) * (c - 0) == ac);
    } else {
        let p = values(pq);
        assert(0 * oj + 0 * oi - 0 * (oi * oj) == 0) by (nonlinear_arith);
    }
}

/// The value of a half.
pub(crate) proof fn lemma_half_value()
    ensures
        2 * half().value() == unity(),
        half().finite(),
{
    lemma_one();
    crate::float::near::lemma_half_near(crate::consts::one());
    vstd::arithmetic::power2::lemma2_to64();
    vstd::arithmetic::power2::lemma2_to64_rest();
    vstd::arithmetic::power2::lemma_pow2_adds(52, 1021);
    vstd::arithmetic::power2::lemma_pow2_unfold(1074);
    assert(sig(half().mag()) == pow2(52));
    assert(expo(half().mag()) == 1021);
}

/// The vector of the change of the explicit Hessian.
spec fn shift_v(xpt: Seq<Seq<F64>>, pq: Seq<F64>, o: Seq<F64>, i: int) -> F64 {
    dot(row(xpt, i), pq) - (half() * total(pq)) * o[i]
}

/// An entry of that vector: the sum of the coordinates of the points times their coefficients, less
/// half the sum of the coefficients times the coordinate of the new base point.
proof fn lemma_shift_v(xpt: Seq<Seq<F64>>, pq: Seq<F64>, o: Seq<F64>, i: int, b: int)
    requires
        0 <= i < o.len(),
        pq.len() == xpt.len(),
        points_within(xpt, o.len(), b),
        within_size(pq, b, pq.len()),
        within_size(o, b, o.len()),
        ample(b),
        xpt.len() + 10 <= MANY,
        shift_v(xpt, pq, o, i).finite(),
    ensures
        ({
            let u = unity() as int;
            let n = xpt.len();
            near(
                shift_v(xpt, pq, o, i),
                u * u,
                exact_dot(values(row(xpt, i)), values(pq), n) * u - half().value() * exact_sum(
                    values(pq),
                    n,
                ) * o[i].value(),
                2 * ((n + 1) * (b * b) * u),
                n as int + 6,
            )
        }),
{
    let u = unity() as int;
    let n = xpt.len();
    let r = row(xpt, i);
    let ot = half() * total(pq);
    vstd::arithmetic::power2::lemma_pow2_pos(1074);
    lemma_half_value();
    lemma_one();
    assert(within_size(r, b, r.len())) by {
        assert forall|k: int| 0 <= k < r.len() implies (#[trigger] r[k]).finite() && size(
            r[k].value(),
        ) <= b by {
            assert(xpt[k].len() == o.len() && within_size(xpt[k], b, o.len()));
            assert(r[k] == xpt[k][i]);
        }
    }
    assert(dot(r, pq).finite() && (ot * o[i]).finite()) by {
        reveal(sum_of);
        lemma_negation_value(ot * o[i]);
    }
    assert(ot.finite() && total(pq).finite()) by {
        reveal(product_of);
    }
    lemma_inner_product(r, pq, b, b);
    lemma_sum_near(pq, n, b);
    lemma_near_self(half(), u);
    let w = (n + 1) * b;
    let t = exact_sum(values(pq), n);
    let s = exact_dot(values(r), values(pq), n);
    let hv = half().value();
    assert(1 * 1 * u == u) by (nonlinear_arith);
    assert(u * w >= 2 * SHARP * u) by (nonlinear_arith)
        requires
            w == (n + 1) * b,
            n >= 0,
            b >= 2 * SHARP,
            u > 0,
    ;
    lemma_near_product(half(), total(pq), 1, hv, u, 0, 1, t, w, n as int);
    lemma_near_self(o[i], b);
    let uw = u * w;
    assert(u * 1 * u == u * u) by (nonlinear_arith);
    let bb = b * b;
    assert(uw * b == (n + 1) * bb * u) by (nonlinear_arith)
        requires
            uw == u * w,
            w == (n + 1) * b,
            bb == b * b,
    ;
    assert(2 * SHARP * (u * u) <= uw * b) by (nonlinear_arith)
        requires
            uw * b == (n + 1) * bb * u,
            bb >= 2 * SHARP * u,
            n >= 0,
            u > 0,
    ;
    lemma_near_product(ot, o[i], u, hv * t, uw, n as int + 2, 1, o[i].value(), b, 0);
    lemma_near_scaled(dot(r, pq), u, s, (n + 1) * bb, n as int + 2, u);
    lemma_near_difference(
        dot(r, pq),
        ot * o[i],
        u * u,
        s * u,
        (n + 1) * bb * u,
        n as int + 2,
        hv * t * o[i].value(),
        uw * b,
        n as int + 4,
    );
    crate::float::calculus::lemma_near_wider(
        shift_v(xpt, pq, o, i),
        u * u,
        s * u - hv * t * o[i].value(),
        2 * ((n + 1) * bb * u),
        n as int + 5,
        2 * ((n + 1) * bb * u),
        n as int + 6,
    );
}

/// A move of the base point to `o` keeps the second derivatives of the model: the explicit Hessian
/// takes up what the implicit part loses when its points are counted from `o`, up to rounding.
pub proof fn lemma_shift_keeps_hessian(
    hq: Seq<Seq<F64>>,
    pq: Seq<F64>,
    xpt: Seq<Seq<F64>>,
    o: Seq<F64>,
    i: int,
    j: int,
    b: int,
)
    requires
        0 <= i < o.len(),
        0 <= j < o.len(),
        pq.len() == xpt.len(),
        points_within(xpt, o.len(), b),
        within_size(pq, b, pq.len()),
        within_size(o, b, o.len()),
        fits(hq[j][i], b),
        ample(b),
        xpt.len() + 20 <= MANY,
        shifted_hq(hq, pq, xpt, o)[j][i].finite(),
    ensures
        ({
            let u = unity() as int;
            let n = xpt.len();
            let oi = o[i].value();
            let oj = o[j].value();
            near(
                shifted_hq(hq, pq, xpt, o)[j][i],
                u * u * u,
                hq[j][i].value() * (u * u * u) + (implicit_entry(xpt, pq, 0, 0, i, j, n)
                    - implicit_entry(xpt, pq, oi, oj, i, j, n)) * u,
                4 * ((n + 1) * (b * b) * u) * b + b * (u * u * u),
                n as int + 10,
            )
        }),
{
    let u = unity() as int;
    let n = xpt.len();
    let vi = shift_v(xpt, pq, o, i);
    let vj = shift_v(xpt, pq, o, j);
    let oi = o[i].value();
    let oj = o[j].value();
    let a = vi * o[j];
    let c = vj * o[i];
    vstd::arithmetic::power2::lemma_pow2_pos(1074);
    assert(shifted_hq(hq, pq, xpt, o)[j][i] == (a + c) + hq[j][i]);
    assert((a + c).finite() && a.finite() && c.finite()) by {
        reveal(sum_of);
    }
    assert(vi.finite() && vj.finite()) by {
        reveal(product_of);
    }
    lemma_shift_v(xpt, pq, o, i, b);
    lemma_shift_v(xpt, pq, o, j, b);
    let m = 2 * ((n + 1) * (b * b) * u);
    let p = values(pq);
    let si = exact_dot(values(row(xpt, i)), p, n);
    let sj = exact_dot(values(row(xpt, j)), p, n);
    let t = exact_sum(p, n);
    let hv = half().value();
    let ni = si * u - hv * t * oi;
    let nj = sj * u - hv * t * oj;
    lemma_near_self(o[i], b);
    lemma_near_self(o[j], b);
    let uu = u * u;
    let u3 = u * u * u;
    assert(uu * 1 * u == u3) by (nonlinear_arith)
        requires
            uu == u * u,
            u3 == u * u * u,
    ;
    assert(2 * SHARP * u3 <= m * b) by {
        let b3 = b * b * b;
        assert(m * b == 2 * (n + 1) * (b3 * u)) by (nonlinear_arith)
            requires
                m == 2 * ((n + 1) * (b * b) * u),
                b3 == b * b * b,
        ;
        let x = b3 * u;
        assert(x >= 2 * SHARP * u3) by (nonlinear_arith)
            requires
                x == b3 * u,
                b3 >= 2 * SHARP * (u * u),
                u3 == u * u * u,
                u > 0,
        ;
        assert(2 * (n + 1) * x >= x) by (nonlinear_arith)
            requires
                n >= 0,
                x >= 0,
        ;
    }
    lemma_near_product(vi, o[j], uu, ni, m, n as int + 6, 1, oj, b, 0);
    lemma_near_product(vj, o[i], uu, nj, m, n as int + 6, 1, oi, b, 0);
    lemma_near_sum(a, c, u3, ni * oj, m * b, n as int + 8, nj * oi, m * b, n as int + 8);
    assert(u3 > 0) by (nonlinear_arith)
        requires
            u3 == u * u * u,
            u > 0,
    ;
    let e = hq[j][i];
    lemma_near_self(e, b);
    lemma_near_scaled(e, 1, e.value(), b, 0, u3);
    assert(1 * u3 == u3) by (nonlinear_arith);
    lemma_near_sum(
        a + c,
        e,
        u3,
        ni * oj + nj * oi,
        m * b + m * b,
        n as int + 9,
        e.value() * u3,
        b * u3,
        0,
    );
    lemma_recounted(xpt, pq, oi, oj, i, j, n);
    lemma_half_value();
    assert(ni * oj + nj * oi == (si * oj + sj * oi - t * (oi * oj)) * u) by {
        let ht = hv * t;
        let oo = oi * oj;
        assert((si * u - ht * oi) * oj == (si * oj) * u - ht * oo) by (nonlinear_arith)
            requires
                oo == oi * oj,
        ;
        assert((sj * u - ht * oj) * oi == (sj * oi) * u - ht * oo) by (nonlinear_arith)
            requires
                oo == oi * oj,
        ;
        assert(2 * (ht * oo) == (t * oo) * u) by (nonlinear_arith)
            requires
                ht == hv * t,
                2 * hv == u,
        ;
        let x1 = si * oj;
        let x2 = sj * oi;
        let x3 = t * oo;
        assert((x1 + x2 - x3) * u == x1 * u + x2 * u - x3 * u) by (nonlinear_arith);
    }
    assert(m * b + m * b == 4 * ((n + 1) * (b * b) * u) * b) by (nonlinear_arith)
        requires
            m == 2 * ((n + 1) * (b * b) * u),
    ;
}

/// The vectors by which `bmat` changes with a move of the base point to `o` are the exact ones, up
/// to rounding: `(o x_k - o^2 / 2) (x_k - o / 2) + (o^2 / 4) o` for each point `x_k`.
pub proof fn lemma_shift_y_near(xpt: Seq<Seq<F64>>, o: Seq<F64>, k: int, i: int, b: int)
    requires
        0 <= k < xpt.len(),
        0 <= i < o.len(),
        points_within(xpt, o.len(), b),
        within_size(o, b, o.len()),
        ample(b),
        o.len() + 20 <= MANY,
        shift_y(xpt, o)[k][i].finite(),
    ensures
        ({
            let u = unity() as int;
            let n = o.len();
            let h = half().value();
            let p = exact_dot(values(o), values(xpt[k]), n);
            let q = exact_dot(values(o), values(o), n);
            let w = (n + 1) * (b * b);
            near(
                shift_y(xpt, o)[k][i],
                u * u * u * u,
                (p * u - h * q) * (xpt[k][i].value() * u - h * o[i].value()) + quarter().value() * q
                    * o[i].value() * u,
                (w * u + u * w) * (b * u + u * b) + u * w * b * u,
                (n + 11) as int,
            )
        }),
{
    let u = unity() as int;
    let n = o.len();
    let w = (n + 1) * (b * b);
    let uu = u * u;
    let sq = dot(o, o);
    let x = dot(o, xpt[k]);
    let hs = half() * sq;
    let ho = half() * o[i];
    let xi = xpt[k][i];
    let qs = quarter() * sq;
    vstd::arithmetic::power2::lemma_pow2_pos(1074);
    lemma_half_value();
    lemma_one();
    assert(4 * quarter().value() == u && quarter().finite()) by {
        vstd::arithmetic::power2::lemma2_to64();
        vstd::arithmetic::power2::lemma2_to64_rest();
        vstd::arithmetic::power2::lemma_pow2_adds(52, 1020);
        vstd::arithmetic::power2::lemma_pow2_unfold(1074);
        vstd::arithmetic::power2::lemma_pow2_unfold(1073);
        assert(sig(quarter().mag()) == pow2(52) && expo(quarter().mag()) == 1020);
    }
    assert(xpt[k].len() == n && within_size(xpt[k], b, n));
    assert(shift_y(xpt, o)[k][i] == (x - hs) * (xi - ho) + qs * o[i]);
    assert(((x - hs) * (xi - ho)).finite() && (qs * o[i]).finite()) by {
        reveal(sum_of);
    }
    assert((x - hs).finite() && (xi - ho).finite() && qs.finite()) by {
        reveal(product_of);
    }
    assert(x.finite() && hs.finite() && ho.finite()) by {
        reveal(sum_of);
        lemma_negation_value(hs);
        lemma_negation_value(ho);
    }
    assert(sq.finite()) by {
        reveal(product_of);
    }
    lemma_inner_product(o, xpt[k], b, b);
    lemma_inner_product(o, o, b, b);
    let p = exact_dot(values(o), values(xpt[k]), n);
    let q = exact_dot(values(o), values(o), n);
    let hv = half().value();
    let qv = quarter().value();
    let c = n as int + 2;
    lemma_near_self(half(), u);
    lemma_near_self(quarter(), u);
    lemma_near_self(o[i], b);
    lemma_near_self(xi, b);
    assert(w >= b * b) by (nonlinear_arith)
        requires
            w == (n + 1) * (b * b),
            n >= 0,
    ;
    assert(1 * u * u == uu && 1 * 1 * u == u) by (nonlinear_arith)
        requires
            uu == u * u,
    ;
    let uw = u * w;
    assert(2 * SHARP * uu <= uw) by (nonlinear_arith)
        requires
            w >= b * b,
            b * b >= 2 * SHARP * u,
            uu == u * u,
            uw == u * w,
            u > 0,
    ;
    let ub = u * b;
    assert(2 * SHARP * u <= ub) by (nonlinear_arith)
        requires
            b >= 2 * SHARP,
            ub == u * b,
            u > 0,
    ;
    lemma_near_product(half(), sq, 1, hv, u, 0, u, q, w, c);
    lemma_near_product(quarter(), sq, 1, qv, u, 0, u, q, w, c);
    lemma_near_product(half(), o[i], 1, hv, u, 0, 1, o[i].value(), b, 0);
    lemma_near_scaled(x, u, p, w, c, u);
    lemma_near_difference(x, hs, uu, p * u, w * u, c, hv * q, uw, c + 2);
    lemma_near_scaled(xi, 1, xi.value(), b, 0, u);
    assert(1 * u == u) by (nonlinear_arith);
    lemma_near_difference(xi, ho, u, xi.value() * u, b * u, 0, hv * o[i].value(), ub, 2);
    let u4 = u * u * u * u;
    assert(uu * u * u == u4) by (nonlinear_arith)
        requires
            uu == u * u,
            u4 == u * u * u * u,
    ;
    let ma = w * u + uw;
    let mb = b * u + ub;
    assert(2 * SHARP * u4 <= ma * mb) by {
        let wb = w * b;
        assert(ma * mb == 4 * (wb * uu)) by (nonlinear_arith)
            requires
                ma == w * u + uw,
                mb == b * u + ub,
                uw == u * w,
                ub == u * b,
                wb == w * b,
                uu == u * u,
        ;
        let b3 = b * b * b;
        assert(wb >= b3) by (nonlinear_arith)
            requires
                w >= b * b,
                wb == w * b,
                b3 == b * b * b,
                b > 0,
        ;
        assert(wb * uu >= (2 * SHARP * uu) * uu) by (nonlinear_arith)
            requires
                wb >= 2 * SHARP * uu,
                uu >= 0,
        ;
        assert((2 * SHARP * uu) * uu == 2 * SHARP * u4) by (nonlinear_arith)
            requires
                uu * u * u == u4,
                uu == u * u,
        ;
    }
    lemma_near_product(
        x - hs,
        xi - ho,
        uu,
        p * u - hv * q,
        ma,
        c + 3,
        u,
        xi.value() * u - hv * o[i].value(),
        mb,
        3,
    );
    let u3 = uu * 1 * u;
    assert(w * b >= b * b * b) by (nonlinear_arith)
        requires
            w >= b * b,
            b > 0,
    ;
    assert(2 * SHARP * u3 <= uw * b) by (nonlinear_arith)
        requires
            u3 == uu * 1 * u,
            uw == u * w,
            w * b >= 2 * SHARP * uu,
            u > 0,
    {
        assert(uw * b == u * (w * b)) by (nonlinear_arith)
            requires
                uw == u * w,
        ;
    }
    lemma_near_product(qs, o[i], uu, qv * q, uw, c + 2, 1, o[i].value(), b, 0);
    lemma_near_scaled(qs * o[i], u3, qv * q * o[i].value(), uw * b, c + 4, u);
    assert(u3 * u == u4) by (nonlinear_arith)
        requires
            u3 == uu * 1 * u,
            uu * u * u == u4,
    ;
    lemma_near_sum(
        (x - hs) * (xi - ho),
        qs * o[i],
        u4,
        (p * u - hv * q) * (xi.value() * u - hv * o[i].value()),
        ma * mb,
        c + 8,
        qv * q * o[i].value() * u,
        uw * b * u,
        c + 4,
    );
}

/// The exact products of entry `i` of the vectors `y` with the columns of `zmat`.
pub open spec fn exact_yz(y: Seq<Seq<F64>>, zmat: Seq<Seq<F64>>, i: int) -> Seq<int> {
    Seq::new(
        zmat.len(),
        |l: int| exact_dot(values(row(y, i)), values(zmat[l]), zmat[l].len()),
    )
}

/// A move of the base point changes the leading columns of `bmat` by the products of the vectors of
/// the move with `zmat` and its transpose, up to rounding: the gradient of each Lagrange function
/// moves along with its Hessian.
pub proof fn lemma_shift_bmat_near(
    bmat: Seq<Seq<F64>>,
    zmat: Seq<Seq<F64>>,
    xpt: Seq<Seq<F64>>,
    o: Seq<F64>,
    c: int,
    i: int,
    b: int,
)
    requires
        0 <= c < xpt.len(),
        0 <= i < o.len(),
        points_within(zmat, xpt.len(), b),
        points_within(shift_y(xpt, o), o.len(), b),
        fits(bmat[c][i], b),
        ample(b),
        xpt.len() + zmat.len() + 20 <= MANY,
        0 < zmat.len(),
        shifted_bmat(bmat, zmat, xpt, o)[c][i].finite(),
    ensures
        ({
            let u = unity() as int;
            let nz = zmat.len();
            let w = (xpt.len() + 1) * (b * b);
            near(
                shifted_bmat(bmat, zmat, xpt, o)[c][i],
                u * 1 * u,
                bmat[c][i].value() * (u * 1 * u) + exact_dot(
                    exact_yz(shift_y(xpt, o), zmat, i),
                    values(row(zmat, c)),
                    nz,
                ),
                b * (u * 1 * u) + (nz + 1) * (w * b),
                (xpt.len() + nz + 5) as int,
            )
        }),
{
    let u = unity() as int;
    let n = o.len();
    let npt = xpt.len();
    let nz = zmat.len();
    let y = shift_y(xpt, o);
    let w = (npt + 1) * (b * b);
    let yz = matmat(y, zmat, n);
    let ry = row(yz, i);
    let rz = row(zmat, c);
    let e = exact_yz(y, zmat, i);
    let v = dot(ry, rz);
    vstd::arithmetic::power2::lemma_pow2_pos(1074);
    assert(transposed(zmat, npt)[c] == rz);
    assert(matmat(yz, transposed(zmat, npt), n)[c][i] == v);
    assert(shifted_bmat(bmat, zmat, xpt, o)[c][i] == bmat[c][i] + v);
    assert(v.finite()) by {
        reveal(sum_of);
    }
    let r = row(y, i);
    assert(within_size(r, b, r.len())) by {
        assert forall|k: int| 0 <= k < r.len() implies (#[trigger] r[k]).finite() && size(
            r[k].value(),
        ) <= b by {
            assert(y[k].len() == n && within_size(y[k], b, n));
            assert(r[k] == y[k][i]);
        }
    }
    assert(within_size(rz, b, rz.len())) by {
        assert forall|l: int| 0 <= l < rz.len() implies (#[trigger] rz[l]).finite() && size(
            rz[l].value(),
        ) <= b by {
            assert(zmat[l].len() == npt && within_size(zmat[l], b, npt));
            assert(rz[l] == zmat[l][c]);
        }
    }
    assert(all_near(ry, u, e, w, npt as int + 2, nz)) by {
        assert forall|l: int| 0 <= l < nz implies near(
            #[trigger] ry[l],
            u,
            e[l],
            w,
            npt as int + 2,
        ) by {
            lemma_dot_finite(ry, rz, nz, l);
            assert(zmat[l].len() == npt && within_size(zmat[l], b, npt));
            assert(ry[l] == dot(r, zmat[l]));
            lemma_inner_product(r, zmat[l], b, b);
        }
    }
    lemma_all_near(rz, b);
    let s = u * 1 * u;
    assert(2 * SHARP * s <= w * b) by (nonlinear_arith)
        requires
            s == u * 1 * u,
            b * b * b >= 2 * SHARP * (u * u),
            w == (npt + 1) * (b * b),
            npt >= 0,
            b > 0,
    ;
    lemma_dot_near(ry, rz, nz, u, e, w, npt as int + 2, 1, values(rz), b, 0);
    assert(s > 0) by (nonlinear_arith)
        requires
            s == u * 1 * u,
            u > 0,
    ;
    lemma_near_self(bmat[c][i], b);
    lemma_near_scaled(bmat[c][i], 1, bmat[c][i].value(), b, 0, s);
    assert(1 * s == s) by (nonlinear_arith);
    lemma_near_sum(
        bmat[c][i],
        v,
        s,
        bmat[c][i].value() * s,
        b * s,
        0,
        exact_dot(e, values(rz), nz),
        (nz + 1) * (w * b),
        npt as int + 2 + 2 + nz,
    );
}

} // verus!
