//! How accurate the trailing part of `H w` and the parameter beta of an update are.
use vstd::prelude::*;

use crate::bobyqb::shift::lemma_half_value;
use crate::consts::half;
use crate::float::arith::product_of;
use crate::float::arith::sum_of;
use crate::float::calculus::lemma_near_difference;
use crate::float::calculus::lemma_near_product;
use crate::float::calculus::lemma_near_scaled;
use crate::float::calculus::lemma_near_self;
use crate::float::calculus::lemma_near_sum;
use crate::float::calculus::lemma_near_wider;
use crate::float::calculus::near;
use crate::float::calculus::MANY;
use crate::float::convert::unity;
use crate::float::error::size;
use crate::float::error::SHARP;
use crate::float::near::lemma_negation_value;
use crate::float::F64;
use crate::linalg::accuracy::all_near;
use crate::linalg::accuracy::exact_dot;
use crate::linalg::accuracy::lemma_all_near;
use crate::linalg::accuracy::lemma_dot_finite;
use crate::linalg::accuracy::lemma_dot_near;
use crate::linalg::accuracy::lemma_inner_product;
use crate::linalg::accuracy::values;
use crate::linalg::accuracy::within_size;
use crate::linalg::turning::lemma_one;
use crate::mat::row;
use crate::powalg::accuracy::exact_w;
use crate::powalg::accuracy::lemma_w_near;
use crate::powalg::accuracy::points_within;
use crate::powalg::beta_of;
use crate::powalg::kernel_of;
use crate::powalg::wcheck_of;
use crate::update::model::ample_more;
use crate::vector::dot;

verus! {

/// The products of the fourth power of the unit, and the bound on the first part of `w`.
proof fn lemma_w_room(n: nat, b: int)
    requires
        ample_more(b),
    ensures
        ({
            let u = unity() as int;
            let w = (n + 1) * (b * b);
            let mw = w * (u * w + w * u);
            let s4 = u * (u * u) * u;
            &&& u > 0
            &&& s4 > 0
            &&& mw > 0
            &&& w >= b * b
            &&& 2 * SHARP * u <= w
            &&& 2 * SHARP * (u * u * u) <= w * w
            &&& 2 * SHARP * s4 <= mw
            &&& 2 * SHARP * (s4 * 1 * u) <= mw * b
        }),
{
    let u = unity() as int;
    let w = (n + 1) * (b * b);
    let mw = w * (u * w + w * u);
    let s4 = u * (u * u) * u;
    vstd::arithmetic::power2::lemma_pow2_pos(1074);
    assert(w >= b * b) by (nonlinear_arith)
        requires
            w == (n + 1) * (b * b),
            n >= 0,
    ;
    let b4 = b * b * b * b;
    let b5 = b * b * b * b * b;
    let u3 = u * u * u;
    let u4 = u * u * u * u;
    assert(w * w >= b4) by (nonlinear_arith)
        requires
            w >= b * b,
            b4 == b * b * b * b,
            b > 0,
    ;
    let ww = w * w;
    assert(mw == 2 * (u * ww)) by (nonlinear_arith)
        requires
            mw == w * (u * w + w * u),
            ww == w * w,
    ;
    assert(s4 == u3 * u && s4 == u4 && s4 > 0) by (nonlinear_arith)
        requires
            s4 == u * (u * u) * u,
            u3 == u * u * u,
            u4 == u * u * u * u,
            u > 0,
    ;
    assert(u * ww >= 2 * SHARP * s4) by (nonlinear_arith)
        requires
            ww >= 2 * SHARP * u3,
            s4 == u3 * u,
            u > 0,
    ;
    assert(mw * b >= u * b5) by (nonlinear_arith)
        requires
            mw == 2 * (u * ww),
            ww >= b4,
            b5 == b4 * b,
            b > 0,
            u > 0,
            b4 >= 0,
    ;
    assert(2 * SHARP * (s4 * 1 * u) <= u * b5) by (nonlinear_arith)
        requires
            b5 >= 2 * SHARP * u4,
            s4 == u4,
            u > 0,
    ;
    assert(2 * SHARP * s4 > 0) by (nonlinear_arith)
        requires
            s4 > 0,
    ;
    assert(u * ww > 0);
    assert(2 * SHARP * s4 <= mw);
    assert(2 * SHARP * u <= w);
    assert(2 * SHARP * (u * u * u) <= w * w);
}

/// The exact vector `w`, in the fourth power of the unit: its first part and the step.
pub open spec fn exact_whole(kref: int, d: Seq<F64>, xpt: Seq<Seq<F64>>) -> Seq<int> {
    let u = unity() as int;
    exact_w(kref, d, xpt) + Seq::new(d.len(), |i: int| d[i].value() * (u * (u * u) * u))
}

/// The trailing part of the product of `H` with `w` is the exact product of the rows of `bmat` with
/// the whole of `w`, up to rounding.
pub proof fn lemma_trailing_near(
    kref: int,
    bmat: Seq<Seq<F64>>,
    d: Seq<F64>,
    xpt: Seq<Seq<F64>>,
    zmat: Seq<Seq<F64>>,
    i: int,
    b: int,
)
    requires
        0 <= kref < xpt.len(),
        0 <= i < d.len(),
        bmat.len() == xpt.len() + d.len(),
        points_within(xpt, d.len(), b),
        points_within(bmat, d.len(), b),
        within_size(d, b, d.len()),
        ample_more(b),
        3 * d.len() + xpt.len() + 40 <= MANY,
        kernel_of(kref, bmat, d, xpt, zmat)[xpt.len() + i].finite(),
    ensures
        ({
            let u = unity() as int;
            let n = d.len();
            let w = (n + 1) * (b * b);
            let s4 = u * (u * u) * u;
            near(
                kernel_of(kref, bmat, d, xpt, zmat)[xpt.len() + i],
                1 * s4 * u,
                exact_dot(
                    values(row(bmat, i)),
                    exact_whole(kref, d, xpt),
                    (xpt.len() + n) as nat,
                ),
                (xpt.len() + n + 1) * (b * (w * (u * w + w * u) + b * s4)),
                (3 * n + xpt.len() + 11) as int,
            )
        }),
{
    let u = unity() as int;
    let n = d.len();
    let npt = xpt.len();
    let w = (n + 1) * (b * b);
    let mw = w * (u * w + w * u);
    let s4 = u * (u * u) * u;
    let m = mw + b * s4;
    let wc = wcheck_of(kref, d, xpt);
    let whole = wc + d;
    let r = row(bmat, i);
    let e = exact_whole(kref, d, xpt);
    let cw = (2 * n + 9) as int;
    let total: nat = npt + n;
    lemma_w_room(n, b);
    assert(kernel_of(kref, bmat, d, xpt, zmat)[npt + i] == dot(r, whole));
    assert(b * s4 > 0) by (nonlinear_arith)
        requires
            b > 0,
            s4 > 0,
    ;
    assert(all_near(whole, s4, e, m, cw, total)) by {
        assert forall|k: int| 0 <= k < total implies near(#[trigger] whole[k], s4, e[k], m, cw) by {
            lemma_dot_finite(r, whole, total, k);
            if k < npt {
                assert(whole[k] == wc[k]);
                lemma_w_near(kref, d, xpt, b, k);
                lemma_near_wider(wc[k], s4, e[k], mw, cw, m, cw);
            } else {
                let x = d[k - npt];
                assert(whole[k] == x);
                lemma_near_self(x, b);
                lemma_near_scaled(x, 1, x.value(), b, 0, s4);
                assert(1 * s4 == s4) by (nonlinear_arith);
                lemma_near_wider(x, s4, x.value() * s4, b * s4, 0, m, cw);
            }
        }
    }
    assert(within_size(r, b, r.len())) by {
        assert forall|l: int| 0 <= l < r.len() implies (#[trigger] r[l]).finite() && size(
            r[l].value(),
        ) <= b by {
            assert(bmat[l].len() == n && within_size(bmat[l], b, n));
            assert(r[l] == bmat[l][i]);
        }
    }
    lemma_all_near(r, b);
    assert(2 * SHARP * (1 * s4 * u) <= b * m) by (nonlinear_arith)
        requires
            2 * SHARP * (s4 * 1 * u) <= mw * b,
            m == mw + b * s4,
            b * s4 > 0,
            b > 0,
    ;
    lemma_dot_near(r, whole, total, 1, values(r), b, 0, s4, e, m, cw);
}

/// The part of beta that holds the step and the reference point alone.
proof fn lemma_beta_lengths(d: Seq<F64>, xref: Seq<F64>, b: int)
    requires
        d.len() == xref.len(),
        within_size(d, b, d.len()),
        within_size(xref, b, d.len()),
        ample_more(b),
        2 * d.len() + 40 <= MANY,
        ({
            let p = dot(d, xref);
            let q = dot(d, d);
            (p * p + q * (dot(xref, xref) + p + p + half() * q)).finite()
        }),
    ensures
        ({
            let u = unity() as int;
            let n = d.len();
            let w = (n + 1) * (b * b);
            let p = dot(d, xref);
            let q = dot(d, d);
            let ep = exact_dot(values(d), values(xref), n);
            let eq = exact_dot(values(d), values(d), n);
            let er = exact_dot(values(xref), values(xref), n);
            near(
                p * p + q * (dot(xref, xref) + p + p + half() * q),
                u * (u * u) * u,
                ep * ep * u + eq * ((er + ep + ep) * u + half().value() * eq),
                5 * (w * w * u),
                (2 * n + 10) as int,
            )
        }),
{
    let u = unity() as int;
    let n = d.len();
    let w = (n + 1) * (b * b);
    let p = dot(d, xref);
    let q = dot(d, d);
    let r = dot(xref, xref);
    let h = half() * q;
    let ep = exact_dot(values(d), values(xref), n);
    let eq = exact_dot(values(d), values(d), n);
    let er = exact_dot(values(xref), values(xref), n);
    let c = n as int + 2;
    lemma_w_room(n, b);
    lemma_half_value();
    lemma_one();
    let f = r + p + p + h;
    assert((p * p).finite() && (q * f).finite()) by {
        reveal(sum_of);
    }
    assert(p.finite() && q.finite() && f.finite()) by {
        reveal(product_of);
    }
    assert((r + p + p).finite() && (r + p).finite() && r.finite() && h.finite()) by {
        reveal(sum_of);
    }
    lemma_inner_product(d, xref, b, b);
    lemma_inner_product(d, d, b, b);
    lemma_inner_product(xref, xref, b, b);
    let ww = w * w;
    let u2 = u * u;
    let u3 = u * u * u;
    lemma_near_product(p, p, u, ep, w, c, u, ep, w, c);
    lemma_near_scaled(p * p, u3, ep * ep, ww, 2 * c + 2, u);
    lemma_near_sum(r, p, u, er, w, c, ep, w, c);
    lemma_near_sum(r + p, p, u, er + ep, w + w, c + 1, ep, w, c);
    lemma_near_self(half(), u);
    assert(1 * u * u == u2) by (nonlinear_arith)
        requires
            u2 == u * u,
    ;
    assert(2 * SHARP * u2 <= u * w) by (nonlinear_arith)
        requires
            2 * SHARP * u <= w,
            u2 == u * u,
            u > 0,
    ;
    lemma_near_product(half(), q, 1, half().value(), u, 0, u, eq, w, c);
    lemma_near_scaled(r + p + p, u, er + ep + ep, w + w + w, c + 2, u);
    let m1 = (w + w + w) * u;
    let m2 = u * w;
    let g = (er + ep + ep) * u;
    lemma_near_sum(r + p + p, h, u2, g, m1, c + 2, half().value() * eq, m2, c + 2);
    let m = m1 + m2;
    let s4 = u * (u * u) * u;
    assert(w * m == 4 * (ww * u)) by (nonlinear_arith)
        requires
            m == (w + w + w) * u + u * w,
            ww == w * w,
    ;
    assert(2 * SHARP * s4 <= w * m) by (nonlinear_arith)
        requires
            2 * SHARP * (u * u * u) <= ww,
            w * m == 4 * (ww * u),
            s4 == u * (u * u) * u,
            u > 0,
    ;
    let k = g + half().value() * eq;
    lemma_near_product(q, f, u, eq, w, c, u2, k, m, c + 3);
    assert(u * u2 * u == s4);
    assert(u3 * u == s4) by (nonlinear_arith)
        requires
            u3 == u * u * u,
            s4 == u * (u * u) * u,
    ;
    lemma_near_sum(p * p, q * f, s4, ep * ep * u, ww * u, 2 * c + 2, eq * k, w * m, 2 * c + 5);
    assert(ww * u + w * m == 5 * (ww * u));
}

/// The parameter beta is what its formula gives, up to rounding: from the exact inner products of
/// the step and the reference point it takes the product of the exact vector `w` with `H w`.
pub proof fn lemma_beta_near(
    kref: int,
    bmat: Seq<Seq<F64>>,
    d: Seq<F64>,
    xpt: Seq<Seq<F64>>,
    zmat: Seq<Seq<F64>>,
    b: int,
)
    requires
        0 <= kref < xpt.len(),
        points_within(xpt, d.len(), b),
        within_size(d, b, d.len()),
        within_size(kernel_of(kref, bmat, d, xpt, zmat), b, xpt.len() + d.len()),
        ample_more(b),
        2 * d.len() + xpt.len() + 40 <= MANY,
        beta_of(kref, bmat, d, xpt, zmat).finite(),
    ensures
        ({
            let u = unity() as int;
            let n = d.len();
            let npt = xpt.len();
            let w = (n + 1) * (b * b);
            let mw = w * (u * w + w * u);
            let s4 = u * (u * u) * u;
            let x = values(xpt[kref]);
            let h = kernel_of(kref, bmat, d, xpt, zmat);
            let ep = exact_dot(values(d), x, n);
            let eq = exact_dot(values(d), values(d), n);
            let er = exact_dot(x, x, n);
            let tail = exact_dot(values(d), values(h.subrange(npt as int, (npt + n) as int)), n);
            let lead = exact_dot(exact_w(kref, d, xpt), values(h.subrange(0, npt as int)), npt);
            near(
                beta_of(kref, bmat, d, xpt, zmat),
                s4 * 1 * u,
                (ep * ep * u + eq * ((er + ep + ep) * u + half().value() * eq) - tail * (u * u * u))
                    * u - lead,
                (5 * (w * w * u) + w * (u * u * u)) * u + (npt + 1) * (mw * b),
                (2 * n + npt + 12) as int,
            )
        }),
{
    let u = unity() as int;
    let n = d.len();
    let npt = xpt.len();
    let w = (n + 1) * (b * b);
    let mw = w * (u * w + w * u);
    let s4 = u * (u * u) * u;
    let xref = xpt[kref];
    let h = kernel_of(kref, bmat, d, xpt, zmat);
    let ht = h.subrange(npt as int, (npt + n) as int);
    let hl = h.subrange(0, npt as int);
    let wc = wcheck_of(kref, d, xpt);
    let p = dot(d, xref);
    let q = dot(d, d);
    let a = p * p + q * (dot(xref, xref) + p + p + half() * q);
    let t = dot(d, ht);
    let l = dot(wc, hl);
    lemma_w_room(n, b);
    assert(beta_of(kref, bmat, d, xpt, zmat) == a - t - l);
    lemma_negation_value(t);
    lemma_negation_value(l);
    assert((a - t).finite() && (-l).finite()) by {
        reveal(sum_of);
    }
    assert(a.finite() && (-t).finite()) by {
        reveal(sum_of);
    }
    assert(t.finite() && l.finite()) by {
        reveal(crate::float::arith::negation_of);
    }
    assert(xref.len() == n && within_size(xref, b, n));
    lemma_beta_lengths(d, xref, b);
    assert(within_size(ht, b, n) && within_size(hl, b, npt)) by {
        assert forall|k: int| 0 <= k < n implies (#[trigger] ht[k]).finite() && size(ht[k].value())
            <= b by {
            assert(ht[k] == h[npt + k]);
        }
        assert forall|k: int| 0 <= k < npt implies (#[trigger] hl[k]).finite() && size(
            hl[k].value(),
        ) <= b by {
            assert(hl[k] == h[k]);
        }
    }
    lemma_inner_product(d, ht, b, b);
    let u3 = u * u * u;
    let tail = exact_dot(values(d), values(ht), n);
    assert(u3 > 0 && u * u3 == s4) by (nonlinear_arith)
        requires
            u3 == u * u * u,
            s4 == u * (u * u) * u,
            u > 0,
    ;
    lemma_near_scaled(t, u, tail, w, n as int + 2, u3);
    let ep = exact_dot(values(d), values(xref), n);
    let eq = exact_dot(values(d), values(d), n);
    let er = exact_dot(values(xref), values(xref), n);
    let na = ep * ep * u + eq * ((er + ep + ep) * u + half().value() * eq);
    let ma = 5 * (w * w * u);
    lemma_near_difference(
        a,
        t,
        s4,
        na,
        ma,
        (2 * n + 10) as int,
        tail * u3,
        w * u3,
        n as int + 2,
    );
    lemma_near_scaled(a - t, s4, na - tail * u3, ma + w * u3, (2 * n + 11) as int, u);
    let e = exact_w(kref, d, xpt);
    let cw = (2 * n + 9) as int;
    assert(all_near(wc, s4, e, mw, cw, npt)) by {
        assert forall|k: int| 0 <= k < npt implies near(#[trigger] wc[k], s4, e[k], mw, cw) by {
            lemma_dot_finite(wc, hl, npt, k);
            lemma_w_near(kref, d, xpt, b, k);
        }
    }
    lemma_all_near(hl, b);
    lemma_dot_near(wc, hl, npt, s4, e, mw, cw, 1, values(hl), b, 0);
    let lead = exact_dot(e, values(hl), npt);
    assert(s4 * u == s4 * 1 * u) by (nonlinear_arith);
    lemma_near_difference(
        a - t,
        l,
        s4 * 1 * u,
        (na - tail * u3) * u,
        (ma + w * u3) * u,
        (2 * n + 11) as int,
        lead,
        (npt + 1) * (mw * b),
        cw + 2 + npt,
    );
}

} // verus!
