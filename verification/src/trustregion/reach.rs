//! Where the step along a direction meets the boundary of the trust region.
use vstd::prelude::*;

use crate::consts::zero;
use crate::float::arith::lemma_fields;
use crate::float::arith::magnitude_of;
use crate::float::arith::root_of;
use crate::float::convert::unity;
use crate::float::error::lemma_product_error;
use crate::float::error::lemma_quotient_error;
use crate::float::error::lemma_root_error;
use crate::float::error::lemma_sum_error;
use crate::float::error::size;
use crate::float::error::SHARP;
use crate::float::near::lemma_negation_value;
use crate::float::near::lemma_order_value;
use crate::float::order::max_of;
use crate::float::F64;
use crate::trustregion::boundary_step;

verus! {

/// The length `x` is the positive root of `a x^2 + 2 c x = b`, up to rounding: `r` is the square
/// root of `a b + c^2`, and `x` is `b` by `r + c`, or `r - c` by `a` where `c` is negative; `y` is
/// that sum or difference.
pub open spec fn reaches(x: int, a: int, b: int, c: int, r: int, y: int) -> bool {
    let u = unity() as int;
    &&& 0 <= r
    &&& 0x1_0000_0000_0000 * size(r * r - (a * b + c * c)) <= a * b + c * c
    &&& SHARP * size(y - (r + size(c))) <= r + size(c)
    &&& c >= 0 ==> 2 * SHARP * size(x * y - b * u) <= b * u + SHARP * y
    &&& c < 0 ==> 2 * SHARP * size(x * a - y * u) <= y * u + SHARP * a
}

/// Three errors add up.
proof fn lemma_total_error(p: int, q: int, z: int, sr: int, dd: int, u: int)
    requires
        u > 0,
        0 <= dd,
        0 <= p,
        0 <= q,
        SHARP * u <= sr,
        2 * SHARP * size(p * u - sr) <= sr + SHARP * u,
        2 * SHARP * size(q * u - dd) <= dd + SHARP * u,
        SHARP * size(z - (p + q)) <= p + q,
    ensures
        0x10_0000_0000_0000 * size(z * u - (sr + dd)) <= 4 * (sr + dd),
        0x10_0000_0000_0000 * size(p * u - sr) <= sr,
        z >= 0,
{
    let t = sr + dd;
    let pu = p * u;
    let qu = q * u;
    let zu = z * u;
    let e = z - (p + q);
    let eu = e * u;
    let sp = size(pu - sr);
    let sq = size(qu - dd);
    assert(0x20_0000_0000_0000 * sp <= sr + 0x10_0000_0000_0000 * u) by (nonlinear_arith)
        requires
            2 * SHARP * sp <= sr + SHARP * u,
    ;
    assert(0x20_0000_0000_0000 * sq <= dd + 0x10_0000_0000_0000 * u) by (nonlinear_arith)
        requires
            2 * SHARP * sq <= dd + SHARP * u,
    ;
    assert(0x10_0000_0000_0000 * u <= sr) by (nonlinear_arith)
        requires
            SHARP * u <= sr,
    ;
    assert(0x10_0000_0000_0000 * sp <= sr);
    assert(0x20_0000_0000_0000 * sq <= t);
    assert(zu == pu + qu + eu) by (nonlinear_arith)
        requires
            zu == z * u,
            pu == p * u,
            qu == q * u,
            eu == e * u,
            e == z - (p + q),
    ;
    assert(0x10_0000_0000_0000 * size(eu) <= pu + qu) by {
        crate::float::error::lemma_size_product(e, u);
        let s = size(e);
        assert(0x10_0000_0000_0000 * (s * u) <= (p + q) * u) by (nonlinear_arith)
            requires
                0x10_0000_0000_0000 * s <= p + q,
                u > 0,
        ;
        assert((p + q) * u == pu + qu) by (nonlinear_arith)
            requires
                pu == p * u,
                qu == q * u,
        ;
    }
    assert(0x10_0000_0000_0000 * size(zu - t) <= 4 * t);
}

/// The length of the step to the boundary: it is the positive root of the equation that says that
/// the step ends there, up to rounding.
pub proof fn lemma_boundary_step(stepsq: F64, resid: F64, ds: F64)
    requires
        stepsq.finite(),
        resid.finite(),
        ds.finite(),
        stepsq.value() > 0,
        resid.value() > 0,
        SHARP * unity() <= stepsq.value() * resid.value(),
        (stepsq * resid).finite(),
        (ds * ds).finite(),
        (stepsq * resid + ds * ds).finite(),
        boundary_step(stepsq, resid, ds).finite(),
        ({
            let r = max_of(
                max_of(root_of(stepsq * resid + ds * ds), root_of(stepsq * resid)),
                magnitude_of(ds),
            );
            (r + ds).finite() && (r - ds).finite()
        }),
    ensures
        exists|r: int, y: int| #[trigger]
            reaches(
                boundary_step(stepsq, resid, ds).value(),
                stepsq.value(),
                resid.value(),
                ds.value(),
                r,
                y,
            ),
{
    let u = unity() as int;
    let a = stepsq.value();
    let b = resid.value();
    let c = ds.value();
    let pf = stepsq * resid;
    let qf = ds * ds;
    let zf = pf + qf;
    let r1 = root_of(zf);
    let r2 = root_of(pf);
    let r3 = magnitude_of(ds);
    let rf = max_of(max_of(r1, r2), r3);
    let x = boundary_step(stepsq, resid, ds);
    vstd::arithmetic::power2::lemma_pow2_pos(1074);
    lemma_fields(0);
    lemma_product_error(stepsq, resid);
    lemma_product_error(ds, ds);
    lemma_sum_error(pf, qf);
    let sr = a * b;
    let dd = c * c;
    let t = sr + dd;
    let p = pf.value();
    let q = qf.value();
    let z = zf.value();
    assert(sr > 0 && dd >= 0) by (nonlinear_arith)
        requires
            sr == a * b,
            dd == c * c,
            a > 0,
            b > 0,
    ;
    assert(p >= 0 && q >= 0) by {
        reveal(crate::float::arith::product_of);
    }
    lemma_total_error(p, q, z, sr, dd, u);
    let zu = z * u;
    let pu = p * u;
    assert(pu > 0 && zu > 0);
    assert(p >= 1 && z >= 1) by (nonlinear_arith)
        requires
            p * u > 0,
            z * u > 0,
            u > 0,
    ;
    lemma_root_error(zf);
    lemma_root_error(pf);
    let v1 = r1.value();
    let v2 = r2.value();
    let v3 = r3.value();
    let r = rf.value();
    assert(v3 == size(c) && r3.finite()) by {
        reveal(magnitude_of);
    }
    assert(v3 * v3 == dd) by (nonlinear_arith)
        requires
            v3 == c || v3 == -c,
            dd == c * c,
    ;
    assert(r1.finite() && r2.finite() && v1 >= 0 && v2 >= 0);
    assert(rf.finite() && r >= v1 && (r == v1 || r == v2 || r == v3)) by {
        reveal(max_of);
        lemma_order_value(r1, r2);
        lemma_order_value(r1, r3);
        lemma_order_value(r2, r3);
    }
    assert(r * r >= v1 * v1) by (nonlinear_arith)
        requires
            r >= v1,
            v1 >= 0,
    ;
    let rr = r * r;
    assert(0x1_0000_0000_0000 * size(rr - t) <= t);
    lemma_negation_value(ds);
    lemma_order_value(zero(), ds);
    lemma_sum_error(rf, ds);
    lemma_sum_error(rf, -ds);
    if c >= 0 {
        let yf = rf + ds;
        let y = yf.value();
        assert(x == resid / yf);
        assert(r > 0) by (nonlinear_arith)
            requires
                r * r > 0,
                r >= 0,
        ;
        assert(y > 0);
        lemma_quotient_error(resid, yf);
        assert(reaches(x.value(), a, b, c, r, y));
    } else {
        let yf = rf - ds;
        let y = yf.value();
        assert(x == yf / stepsq);
        lemma_quotient_error(yf, stepsq);
        assert(reaches(x.value(), a, b, c, r, y));
    }
}

} // verus!
