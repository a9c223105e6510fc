//! What the update of the inverse interpolation matrix makes of its entries.
use vstd::prelude::*;

use crate::consts::one;
use crate::consts::zero;
use crate::consts::INFO_DFT;
use crate::float::arith::lemma_fields;
use crate::float::arith::magnitude_of;
use crate::float::arith::product_of;
use crate::float::arith::quotient_of;
use crate::float::arith::root_of;
use crate::float::arith::sum_of;
use crate::float::calculus::lemma_near_difference;
use crate::float::calculus::lemma_near_product;
use crate::float::calculus::lemma_near_quotient;
use crate::float::calculus::lemma_near_scaled;
use crate::float::calculus::lemma_near_self;
use crate::float::calculus::lemma_near_sum;
use crate::float::calculus::near;
use crate::float::calculus::MANY;
use crate::float::convert::unity;
use crate::float::error::lemma_root_error;
use crate::float::error::size;
use crate::float::error::SHARP;
use crate::float::near::lemma_negation_value;
use crate::float::near::lemma_order_value;
use crate::float::order::below;
use crate::float::F64;
use crate::linalg::accuracy::exact_dot;
use crate::linalg::accuracy::lemma_matvec_near;
use crate::linalg::accuracy::values;
use crate::linalg::accuracy::within_size;
use crate::mat::row;
use crate::mat::shaped;
use crate::update::h_column;
use crate::update::inverse_updated;
use crate::update::rotated;
use crate::update::update_denominator;
use crate::update::update_info;
use crate::update::Inverse;
use crate::vector::abs_sum;

verus! {

/// A bound for the sizes of numbers, counted in smallest units: not below the smallest normal
/// number by so much that a product of four of them underflows.
pub open spec fn ample(b: int) -> bool {
    &&& b >= 2 * SHARP
    &&& b * b >= 2 * SHARP * unity()
    &&& b * b * b >= 2 * SHARP * (unity() * unity())
    &&& b * b * b * b >= 2 * SHARP * (unity() * unity() * unity())
}

/// The finite number is not larger than `b`.
pub open spec fn fits(x: F64, b: int) -> bool {
    x.finite() && size(x.value()) <= b
}

/// A difference of two products by a number.
proof fn lemma_quotient_part(a: F64, v: F64, t: F64, h: F64, den: F64, b: int)
    requires
        ample(b),
        fits(a, b),
        fits(v, b),
        fits(t, b),
        fits(h, b),
        den.finite(),
        0 < den.value() <= b,
        ((a * v - t * h) / den).finite(),
    ensures
        near(
            (a * v - t * h) / den,
            unity() * den.value(),
            (a.value() * v.value() - t.value() * h.value()) * unity(),
            2 * (b * b) * unity(),
            5,
        ),
{
    let u = unity() as int;
    let d = den.value();
    let bb = b * b;
    vstd::arithmetic::power2::lemma_pow2_pos(1074);
    assert((a * v - t * h).finite()) by {
        reveal(quotient_of);
    }
    assert((a * v).finite() && (t * h).finite()) by {
        reveal(sum_of);
        lemma_negation_value(t * h);
    }
    lemma_near_self(a, b);
    lemma_near_self(v, b);
    lemma_near_self(t, b);
    lemma_near_self(h, b);
    assert(1 * 1 * u == u) by (nonlinear_arith);
    lemma_near_product(a, v, 1, a.value(), b, 0, 1, v.value(), b, 0);
    lemma_near_product(t, h, 1, t.value(), b, 0, 1, h.value(), b, 0);
    let n = a.value() * v.value() - t.value() * h.value();
    lemma_near_difference(
        a * v,
        t * h,
        u,
        a.value() * v.value(),
        bb,
        2,
        t.value() * h.value(),
        bb,
        2,
    );
    assert(2 * SHARP * (u * d) <= (bb + bb) * u) by (nonlinear_arith)
        requires
            0 < d <= b,
            bb == b * b,
            b >= 2 * SHARP,
            u > 0,
    ;
    lemma_near_quotient(a * v - t * h, den, u, n, bb + bb, 3);
    assert((bb + bb) * u == 2 * bb * u) by (nonlinear_arith);
}

/// An entry with two products added, the first factors of which are quotients by the denominator.
proof fn lemma_added(e: F64, x: F64, v: F64, y: F64, h: F64, d: int, n: int, k: int, b: int)
    requires
        ample(b),
        fits(e, b),
        fits(v, b),
        fits(h, b),
        0 < d <= b,
        near(x, unity() * d, n * unity(), 2 * (b * b) * unity(), 5),
        near(y, unity() * d, k * unity(), 2 * (b * b) * unity(), 5),
        ((e + x * v) + y * h).finite(),
    ensures
        near(
            (e + x * v) + y * h,
            unity() * d * unity(),
            (e.value() * (unity() * d) + n * v.value() + k * h.value()) * unity(),
            (b * (unity() * d) + 4 * (b * b * b)) * unity(),
            9,
        ),
{
    let u = unity() as int;
    let ud = u * d;
    let m = 2 * (b * b) * u;
    let mb = m * b;
    let s = ud * u;
    vstd::arithmetic::power2::lemma_pow2_pos(1074);
    assert((e + x * v).finite() && (x * v).finite() && (y * h).finite()) by {
        reveal(sum_of);
    }
    lemma_near_self(e, b);
    lemma_near_self(v, b);
    lemma_near_self(h, b);
    assert(ud * 1 * u == s) by (nonlinear_arith)
        requires
            s == ud * u,
    ;
    let b3 = b * b * b;
    assert(mb == 2 * b3 * u) by (nonlinear_arith)
        requires
            m == 2 * (b * b) * u,
            mb == m * b,
            b3 == b * b * b,
    ;
    assert(2 * SHARP * s <= mb) by {
        let bb = b * b;
        let su = SHARP * u;
        assert(su * b <= bb * b) by (nonlinear_arith)
            requires
                su <= bb,
                b > 0,
        ;
        assert(su * d <= su * b) by (nonlinear_arith)
            requires
                d <= b,
                su > 0,
        ;
        assert(SHARP * ud == su * d) by (nonlinear_arith)
            requires
                ud == u * d,
                su == SHARP * u,
        ;
        let q = SHARP * ud;
        assert(2 * (q * u) <= 2 * b3 * u) by (nonlinear_arith)
            requires
                q <= b3,
                u > 0,
        ;
        assert(2 * SHARP * s == 2 * (q * u)) by (nonlinear_arith)
            requires
                s == ud * u,
                q == SHARP * ud,
        ;
    }
    lemma_near_product(x, v, ud, n * u, m, 5, 1, v.value(), b, 0);
    lemma_near_product(y, h, ud, k * u, m, 5, 1, h.value(), b, 0);
    assert(s > 0) by (nonlinear_arith)
        requires
            s == ud * u,
            ud == u * d,
            u > 0,
            d > 0,
    ;
    lemma_near_scaled(e, 1, e.value(), b, 0, s);
    assert(1 * s == s) by (nonlinear_arith);
    let ev = e.value();
    let nv = (n * u) * v.value();
    let kh = (k * u) * h.value();
    lemma_near_sum(e, x * v, s, ev * s, b * s, 0, nv, mb, 7);
    lemma_near_sum(e + x * v, y * h, s, ev * s + nv, b * s + mb, 8, kh, mb, 7);
    assert(ev * s + nv + kh == (ev * ud + n * v.value() + k * h.value()) * u) by {
        assert(ev * (ud * u) == (ev * ud) * u) by (nonlinear_arith);
        assert((n * u) * v.value() == (n * v.value()) * u) by (nonlinear_arith);
        assert((k * u) * h.value() == (k * h.value()) * u) by (nonlinear_arith);
        let x1 = ev * ud;
        let x2 = n * v.value();
        let x3 = k * h.value();
        assert(x1 * u + x2 * u + x3 * u == (x1 + x2 + x3) * u) by (nonlinear_arith);
    }
    assert(b * s + mb + mb == (b * ud + 4 * b3) * u) by {
        assert(b * (ud * u) == (b * ud) * u) by (nonlinear_arith);
        let x1 = b * ud;
        assert(x1 * u + 2 * b3 * u + 2 * b3 * u == (x1 + 4 * b3) * u) by (nonlinear_arith);
    }
}

/// The vectors of the update and its numbers are not larger than `b`, and what it computes is
/// finite.
pub open spec fn update_fits(h: Inverse, knew: int, vlag: Seq<F64>, beta: F64, b: int) -> bool {
    let hcol = h_column(h, knew);
    let w = vlag.update(knew, vlag[knew] - one());
    &&& ample(b)
    &&& fits(beta, b)
    &&& fits(vlag[knew], b)
    &&& fits(update_denominator(h, knew, vlag, beta), b)
    &&& forall|j: int| 0 <= j < w.len() ==> fits(#[trigger] w[j], b)
    &&& forall|j: int| 0 <= j < hcol.len() ==> fits(#[trigger] hcol[j], b)
}

/// Powell's formula for the trailing rows of `H` when point `knew` is replaced: with the Lagrange
/// values `v` less one at `knew`, column `h` of `H`, its entry `alpha` and the value `tau` at
/// `knew`, each entry changes by
/// `((alpha v_i - tau h_i) v_j - (beta h_i + tau v_i) h_j) / denominator`, up to rounding.
pub proof fn lemma_bmat_formula(
    h: Inverse,
    knew: int,
    vlag: Seq<F64>,
    beta: F64,
    n: nat,
    npt: nat,
    i: int,
    j: int,
    b: int,
)
    requires
        update_info(h, knew, vlag, beta) == INFO_DFT,
        h.zmat.len() > 0,
        h.zmat[0].len() == npt,
        h.bmat.len() == npt + n,
        forall|c: int| 0 <= c < npt + n ==> (#[trigger] h.bmat[c]).len() == n,
        vlag.len() == npt + n,
        0 <= knew < npt,
        0 <= i < n,
        0 <= j < npt + n,
        i >= j - npt,
        update_fits(h, knew, vlag, beta, b),
        fits(h.bmat[j][i], b),
        inverse_updated(h, knew, vlag, beta).bmat[j][i].finite(),
    ensures
        ({
            let hcol = h_column(h, knew);
            let w = vlag.update(knew, vlag[knew] - one());
            let den = update_denominator(h, knew, vlag, beta).value();
            let alpha = hcol[knew].value();
            let tau = vlag[knew].value();
            let vi = w[npt + i].value();
            let hi = hcol[npt + i].value();
            let change = (alpha * vi - tau * hi) * w[j].value() - (beta.value() * hi + tau * vi)
                * hcol[j].value();
            near(
                inverse_updated(h, knew, vlag, beta).bmat[j][i],
                unity() * den * unity(),
                (h.bmat[j][i].value() * (unity() * den) + change) * unity(),
                (b * (unity() * den) + 4 * (b * b * b)) * unity(),
                9,
            )
        }),
{
    let hcol = h_column(h, knew);
    let w = vlag.update(knew, vlag[knew] - one());
    let den = update_denominator(h, knew, vlag, beta);
    let alpha = hcol[knew];
    let tau = vlag[knew];
    let d = den.value();
    lemma_fields(0);
    lemma_order_value(zero(), den);
    assert(h.bmat[0].len() == n && h.bmat[knew].len() == n);
    assert(hcol.len() == npt + n);
    let x = (alpha * w[npt + i] - tau * hcol[npt + i]) / den;
    let y = ((-beta) * hcol[npt + i] - tau * w[npt + i]) / den;
    let e = h.bmat[j][i];
    assert(h.bmat[j].len() == n);
    assert(inverse_updated(h, knew, vlag, beta).bmat[j][i] == (e + x * w[j]) + y * hcol[j]);
    assert(fits(w[npt + i], b) && fits(w[j], b));
    assert(fits(hcol[npt + i], b) && fits(hcol[j], b) && fits(hcol[knew], b));
    assert(x.finite() && y.finite()) by {
        reveal(sum_of);
        reveal(product_of);
    }
    lemma_negation_value(beta);
    lemma_quotient_part(alpha, w[npt + i], tau, hcol[npt + i], den, b);
    lemma_quotient_part(-beta, hcol[npt + i], tau, w[npt + i], den, b);
    let vi = w[npt + i].value();
    let hi = hcol[npt + i].value();
    let p = alpha.value() * vi - tau.value() * hi;
    let q = (-beta).value() * hi - tau.value() * vi;
    lemma_added(e, x, w[j], y, hcol[j], d, p, q, b);
    let bv = beta.value();
    let tv = tau.value();
    let hj = hcol[j].value();
    assert(((-bv) * hi - tv * vi) * hj == -((bv * hi + tv * vi) * hj)) by {
        assert((-bv) * hi == -(bv * hi)) by (nonlinear_arith);
        let z = bv * hi + tv * vi;
        assert((-z) * hj == -(z * hj)) by (nonlinear_arith);
    }
}

/// The last columns of `bmat` form a symmetric matrix after the update.
pub proof fn lemma_bmat_symmetric(
    h: Inverse,
    knew: int,
    vlag: Seq<F64>,
    beta: F64,
    n: nat,
    npt: nat,
    i: int,
    k: int,
)
    requires
        update_info(h, knew, vlag, beta) == INFO_DFT,
        h.zmat.len() > 0,
        h.zmat[0].len() == npt,
        h.bmat.len() == npt + n,
        h.bmat[0].len() == n,
        0 <= i < n,
        0 <= k < n,
    ensures
        ({
            let b = inverse_updated(h, knew, vlag, beta).bmat;
            b[npt + i][k] == b[npt + k][i]
        }),
{
}

/// Powell's formula for the leading part of `H` when point `knew` is replaced, up to rounding.  The
/// columns of `zmat` but the first are the turned ones, which have a zero in row `knew`.  The first
/// column `z` of the turned ones becomes `(tau z - z_knew v) / root`, where `root` is the square
/// root of the denominator: so the product of `zmat` with its transpose changes as the formula for
/// `H` says.
pub proof fn lemma_zmat_formula(h: Inverse, knew: int, vlag: Seq<F64>, beta: F64, i: int, b: int)
    requires
        update_info(h, knew, vlag, beta) == INFO_DFT,
        shaped(h.zmat, h.zmat[0].len(), h.zmat.len()),
        h.zmat.len() > 0,
        h.zmat[0].len() <= vlag.len(),
        0 <= knew < h.zmat[0].len(),
        0 <= i < h.zmat[0].len(),
        update_fits(h, knew, vlag, beta, b),
        fits(rotated(h.zmat, knew, h.zmat.len())[0][i], b),
        fits(rotated(h.zmat, knew, h.zmat.len())[0][knew], b),
        inverse_updated(h, knew, vlag, beta).zmat[0][i].finite(),
        2 * SHARP * root_of(update_denominator(h, knew, vlag, beta)).value() <= b * unity(),
        2 * SHARP * root_of(update_denominator(h, knew, vlag, beta)).value() <= b * b,
        rotated(h.zmat, knew, h.zmat.len())[0].len() == h.zmat[0].len(),
        rotated(h.zmat, knew, h.zmat.len()).len() == h.zmat.len(),
    ensures
        ({
            let y = inverse_updated(h, knew, vlag, beta).zmat;
            let z = rotated(h.zmat, knew, h.zmat.len());
            let w = vlag.update(knew, vlag[knew] - one());
            let den = update_denominator(h, knew, vlag, beta).value();
            let r = root_of(update_denominator(h, knew, vlag, beta)).value();
            &&& y.len() == z.len()
            &&& forall|j: int| 0 < j < z.len() ==> #[trigger] y[j] == z[j]
            &&& r > 0
            &&& 0x4_0000_0000_0000 * size(r * r - den * unity()) <= den * unity()
            &&& near(
                y[0][i],
                r * unity(),
                (vlag[knew].value() * z[0][i].value() - z[0][knew].value() * w[i].value())
                    * unity(),
                2 * (b * b) * unity(),
                5,
            )
        }),
{
    let z = rotated(h.zmat, knew, h.zmat.len());
    let w = vlag.update(knew, vlag[knew] - one());
    let den = update_denominator(h, knew, vlag, beta);
    let root = root_of(den);
    let tau = vlag[knew];
    let u = unity() as int;
    let r = root.value();
    vstd::arithmetic::power2::lemma_pow2_pos(1074);
    lemma_fields(0);
    lemma_order_value(zero(), den);
    assert(!den.sign()) by {
        reveal(below);
    }
    lemma_root_error(den);
    assert(fits(w[i], b));
    let p = tau / root;
    let q = z[0][knew] / root;
    let v = p * z[0][i] - q * w[i];
    assert(inverse_updated(h, knew, vlag, beta).zmat[0][i] == v);
    assert((p * z[0][i]).finite() && (q * w[i]).finite()) by {
        reveal(sum_of);
        lemma_negation_value(q * w[i]);
    }
    assert(p.finite() && q.finite()) by {
        reveal(product_of);
    }
    assert(1 * r == r) by (nonlinear_arith);
    lemma_near_self(tau, b);
    lemma_near_self(z[0][knew], b);
    lemma_near_self(z[0][i], b);
    lemma_near_self(w[i], b);
    lemma_near_quotient(tau, root, 1, tau.value(), b, 0);
    lemma_near_quotient(z[0][knew], root, 1, z[0][knew].value(), b, 0);
    let s = r * u;
    assert(r * 1 * u == s) by (nonlinear_arith)
        requires
            s == r * u,
    ;
    let bu = b * u;
    assert(2 * SHARP * s <= bu * b) by (nonlinear_arith)
        requires
            s == r * u,
            bu == b * u,
            2 * SHARP * r <= b * b,
            u > 0,
    ;
    lemma_near_product(
        p,
        z[0][i],
        r,
        tau.value() * u,
        bu,
        2,
        1,
        z[0][i].value(),
        b,
        0,
    );
    lemma_near_product(
        q,
        w[i],
        r,
        z[0][knew].value() * u,
        bu,
        2,
        1,
        w[i].value(),
        b,
        0,
    );
    let n1 = (tau.value() * u) * z[0][i].value();
    let n2 = (z[0][knew].value() * u) * w[i].value();
    lemma_near_difference(p * z[0][i], q * w[i], s, n1, bu * b, 4, n2, bu * b, 4);
    let t1 = tau.value();
    let t2 = z[0][i].value();
    let t3 = z[0][knew].value();
    let t4 = w[i].value();
    assert((t1 * u) * t2 == (t1 * t2) * u) by (nonlinear_arith);
    assert((t3 * u) * t4 == (t3 * t4) * u) by (nonlinear_arith);
    let x1 = t1 * t2;
    let x2 = t3 * t4;
    assert(x1 * u - x2 * u == (x1 - x2) * u) by (nonlinear_arith);
    assert(bu * b + bu * b == 2 * (b * b) * u) by (nonlinear_arith)
        requires
            bu == b * u,
    ;
}

/// When `H` is updated: exactly where the sum of the sizes of the numbers in the update is finite
/// and its denominator is positive.  Otherwise `H` stays as it is.
pub proof fn lemma_update_when(h: Inverse, knew: int, vlag: Seq<F64>, beta: F64)
    ensures
        ({
            let hcol = h_column(h, knew);
            let w = vlag.update(knew, vlag[knew] - one());
            let den = hcol[knew] * beta + vlag[knew] * vlag[knew];
            let sizes = abs_sum(hcol) + abs_sum(w) + magnitude_of(beta);
            &&& update_info(h, knew, vlag, beta) == INFO_DFT <==> sizes.finite() && den > zero()
            &&& update_info(h, knew, vlag, beta) != INFO_DFT ==> inverse_updated(
                h,
                knew,
                vlag,
                beta,
            ) == h
        }),
{
}

/// Column `knew` of `H`: its leading part is the product of `zmat` with row `knew` of `zmat`, up to
/// rounding, and its trailing part the column of `bmat`.
pub proof fn lemma_column_near(h: Inverse, knew: int, k: int, npt: nat, b: int)
    requires
        h.zmat.len() > 0,
        h.zmat[0].len() == npt,
        0 <= k < npt,
        ample(b),
        within_size(row(h.zmat, k), b, h.zmat.len()),
        within_size(row(h.zmat, knew), b, h.zmat.len()),
        h.zmat.len() + 2 <= MANY,
        h_column(h, knew)[k].finite(),
    ensures
        near(
            h_column(h, knew)[k],
            unity() as int,
            exact_dot(
                values(row(h.zmat, k)),
                values(row(h.zmat, knew)),
                h.zmat.len(),
            ),
            (h.zmat.len() + 1) * (b * b),
            h.zmat.len() as int + 2,
        ),
        forall|i: int|
            0 <= i < h.bmat[knew].len() ==> h_column(h, knew)[npt + i]
                == #[trigger] h.bmat[knew][i],
{
    lemma_matvec_near(h.zmat, row(h.zmat, knew), npt, b, b, k);
}

} // verus!
