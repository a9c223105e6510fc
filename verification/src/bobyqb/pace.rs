//! How the resolution and the radius come down, and how the set follows the base point.
use vstd::arithmetic::power2::lemma2_to64;
use vstd::arithmetic::power2::lemma2_to64_rest;
use vstd::arithmetic::power2::lemma_pow2_adds;
use vstd::arithmetic::power2::lemma_pow2_pos;
use vstd::arithmetic::power2::pow2;
use vstd::prelude::*;

use crate::bobyqb::course::base_moved;
use crate::bobyqb::course::snapped;
use crate::bobyqb::course::Task;
use crate::bobyqb::lemma_resolution_constants;
use crate::bobyqb::reduced_rho;
use crate::consts::half;
use crate::consts::one;
use crate::consts::one_and_half;
use crate::consts::sixteen;
use crate::consts::tenth;
use crate::consts::two_hundred_fifty;
use crate::consts::zero;
use crate::float::arith::lemma_fields;
use crate::float::arith::magnitude_of;
use crate::float::arith::quotient_of;
use crate::float::arith::root_of;
use crate::float::convert::unity;
use crate::float::error::lemma_product_error;
use crate::float::error::lemma_quotient_error;
use crate::float::error::lemma_root_error;
use crate::float::error::lemma_sum_error;
use crate::float::error::size;
use crate::float::error::SHARP;
use crate::float::expo;
use crate::float::near::lemma_half_product;
use crate::float::near::lemma_negation_value;
use crate::float::near::lemma_round_beside;
use crate::float::near::lemma_units_monotone;
use crate::float::order::at_most;
use crate::float::order::below;
use crate::float::order::max_of;
use crate::float::order::min_of;
use crate::float::sig;
use crate::float::units;
use crate::float::F64;
use crate::float::INF_MAG;
use crate::linalg::turning::lemma_one;
use crate::model::ModelView;
use crate::rescue::aux_steps;

verus! {

/// How the resolution falls.  Far above the final one it falls to a tenth; near the final one it
/// falls to that; in between the next quotient by the final one is the square root of the present
/// one.  All up to rounding.
pub proof fn lemma_resolution_steps(rho: F64, rhoend: F64)
    requires
        rho.finite(),
        rhoend.finite(),
        zero() < rhoend,
        zero() < rho,
    ensures
        ({
            let r = reduced_rho(rho, rhoend);
            let q = rho / rhoend;
            let u = unity() as int;
            &&& rho.value() <= 16 * rhoend.value() ==> r == rhoend
            &&& rho.value() > 251 * rhoend.value() && r.finite() ==> 2 * SHARP * size(
                r.value() * u - tenth().value() * rho.value(),
            ) <= size(tenth().value() * rho.value()) + SHARP * u
            &&& 17 * rhoend.value() < rho.value() && rho.value() <= 250 * rhoend.value()
                && q.finite() && r.finite() ==> {
                &&& 2 * SHARP * size(q.value() * rhoend.value() - rho.value() * u) <= size(
                    rho.value(),
                ) * u + SHARP * size(rhoend.value())
                &&& 0x4_0000_0000_0000 * size(
                    root_of(q).value() * root_of(q).value() - q.value() * u,
                ) <= q.value() * u
                &&& 2 * SHARP * size(
                    r.value() * u - root_of(q).value() * rhoend.value(),
                ) <= size(root_of(q).value() * rhoend.value()) + SHARP * u
            }
        }),
{
    let u = unity();
    let a = units(rho.mag());
    let e = units(rhoend.mag());
    let q = rho / rhoend;
    lemma_fields(0);
    lemma_one();
    lemma_pow2_pos(1074);
    lemma_resolution_constants();
    reveal(below);
    lemma_fields(rho.mag());
    lemma_fields(rhoend.mag());
    lemma_units_monotone(rho.mag(), 0);
    lemma_units_monotone(rhoend.mag(), 0);
    lemma_marks(rho, rhoend);
    reveal(at_most);
    let r = reduced_rho(rho, rhoend);
    if q > two_hundred_fifty() {
        if r.finite() {
            lemma_product_error(tenth(), rho);
        }
    } else if !(q <= sixteen()) {
        if q.finite() && r.finite() {
            lemma_quotient_error(rho, rhoend);
            assert(q.value() >= 1) by {
                lemma_units_monotone(q.mag(), 0);
            }
            lemma_root_error(q);
            lemma_product_error(root_of(q), rhoend);
        }
    }
}

/// The quotient of the resolution by the final one beside the marks.
proof fn lemma_marks(rho: F64, rhoend: F64)
    requires
        rho.finite(),
        rhoend.finite(),
        zero() < rhoend,
        zero() < rho,
    ensures
        ({
            let q = rho / rhoend;
            &&& !q.nan() && !q.sign()
            &&& rho.value() <= 16 * rhoend.value() ==> q <= sixteen()
            &&& rho.value() <= 250 * rhoend.value() ==> !(q > two_hundred_fifty())
            &&& rho.value() > 251 * rhoend.value() ==> q > two_hundred_fifty()
            &&& 17 * rhoend.value() < rho.value() ==> !(q <= sixteen())
            &&& 17 * rhoend.value() < rho.value() ==> !q.zero()
        }),
{
    let u = unity();
    let a = units(rho.mag());
    let e = units(rhoend.mag());
    let q = rho / rhoend;
    lemma_fields(0);
    lemma_one();
    lemma_pow2_pos(1074);
    lemma_resolution_constants();
    reveal(below);
    reveal(at_most);
    reveal(quotient_of);
    lemma_fields(rho.mag());
    lemma_fields(rhoend.mag());
    let m16 = sixteen().mag();
    let m250 = two_hundred_fifty().mag();
    assert(units(m16) == 16 * u && units(m250) == 250 * u);
    lemma_round_beside(a * u, e, m16);
    lemma_round_beside(a * u, e, m250);
    if a <= 16 * e {
        assert(a * u <= (16 * u) * e) by (nonlinear_arith)
            requires
                a <= 16 * e,
        ;
    }
    if a <= 250 * e {
        assert(a * u <= (250 * u) * e) by (nonlinear_arith)
            requires
                a <= 250 * e,
        ;
    }
    let next16 = (m16 + 1) as nat;
    let next250 = (m250 + 1) as nat;
    lemma_next(m16);
    lemma_next(m250);
    lemma_round_beside(a * u, e, next16);
    lemma_round_beside(a * u, e, next250);
    if a > 17 * e {
        assert(a * u >= (17 * u) * e) by (nonlinear_arith)
            requires
                a > 17 * e,
        ;
        let x = units(next16);
        assert(x * e <= (17 * u) * e) by (nonlinear_arith)
            requires
                x <= 17 * u,
        ;
    }
    if a > 251 * e {
        assert(a * u >= (251 * u) * e) by (nonlinear_arith)
            requires
                a > 251 * e,
        ;
        let x = units(next250);
        assert(x * e <= (251 * u) * e) by (nonlinear_arith)
            requires
                x <= 251 * u,
        ;
    }
}

/// The next number is not much larger.
proof fn lemma_next(m: nat)
    requires
        m == sixteen().mag() || m == two_hundred_fifty().mag(),
    ensures
        m + 1 < INF_MAG,
        units((m + 1) as nat) <= units(m) + unity(),
{
    let p = pow2(1026);
    let q = pow2(1029);
    lemma2_to64();
    lemma2_to64_rest();
    lemma_pow2_pos(1026);
    lemma_pow2_adds(48, 1026);
    lemma_pow2_adds(45, 1029);
    assert(sig(0x4030_0000_0000_0000) == 0x10_0000_0000_0000 && expo(0x4030_0000_0000_0000)
        == 1026);
    assert(sig(0x4030_0000_0000_0001) == 0x10_0000_0000_0001 && expo(0x4030_0000_0000_0001)
        == 1026);
    assert(sig(0x406f_4000_0000_0000) == 0x1f_4000_0000_0000 && expo(0x406f_4000_0000_0000)
        == 1029);
    assert(sig(0x406f_4000_0000_0001) == 0x1f_4000_0000_0001 && expo(0x406f_4000_0000_0001)
        == 1029);
    assert(units(0x4030_0000_0000_0001) == 0x10_0000_0000_0001 * p);
    assert(units(0x4030_0000_0000_0000) == 0x10_0000_0000_0000 * p);
    assert(units(0x406f_4000_0000_0001) == 0x1f_4000_0000_0001 * q);
    assert(units(0x406f_4000_0000_0000) == 0x1f_4000_0000_0000 * q);
    assert(p <= unity() && q <= unity());
}

/// The radius snaps to the resolution where it is not above it, and stays where it is more than one
/// and a half times as large.
pub proof fn lemma_snaps(t: Task, delta: F64, rho: F64)
    requires
        delta.finite(),
        rho.finite(),
        zero() < rho,
        !(one_and_half() * rho).nan(),
        t.set.gamma2 >= one(),
    ensures
        snapped(t, delta, rho) == rho || snapped(t, delta, rho) == delta,
        rho < delta ==> rho <= snapped(t, delta, rho),
{
    reveal(at_most);
    reveal(below);
}

/// The two provisional steps on a direction lie between the bounds on steps; the first is not the
/// shorter one, and the second is at least half as long.
pub proof fn lemma_provisional_steps(delta: F64, sl: F64, su: F64)
    requires
        delta.finite(),
        zero() < delta,
        sl.finite(),
        su.finite(),
        sl <= zero(),
        zero() <= su,
    ensures
        ({
            let (p, q) = aux_steps(delta, sl, su);
            &&& p.within(sl, su)
            &&& q.within(sl, su)
            &&& magnitude_of(p) <= delta
            &&& !(magnitude_of(q) < half() * magnitude_of(p)) || q == half() * p
        }),
{
    lemma_negation_value(delta);
    lemma_fields(0);
    reveal(at_most);
    reveal(below);
    reveal(max_of);
    reveal(min_of);
    reveal(magnitude_of);
    let p = min_of(delta, su);
    let q = max_of(-delta, sl);
    assert(p.finite() && q.finite());
    lemma_half_product(p);
    lemma_half_product(q);
}

/// When the base point moves to the best point, that becomes the origin, and the other points are
/// counted from it: each coordinate is the difference, up to rounding.
pub proof fn lemma_recentred_near(t: Task, m: ModelView, k: int, i: int)
    requires
        0 <= k < m.xpt.len(),
        m.kopt < m.xpt.len(),
        0 <= i < m.xpt[k].len(),
        m.xpt[k].len() == m.xopt().len(),
        m.xpt[k][i].finite(),
        m.xopt()[i].finite(),
        (m.xpt[k][i] - m.xopt()[i]).finite(),
        i < m.xbase.len(),
    ensures
        ({
            let r = base_moved(t, m);
            let d = m.xpt[k][i].value() - m.xopt()[i].value();
            let b = m.xbase[i] + m.xopt()[i];
            &&& k == m.kopt ==> r.xpt[k][i].zero()
            &&& k != m.kopt ==> SHARP * size(r.xpt[k][i].value() - d) <= size(d)
            &&& r.fval == m.fval && r.kopt == m.kopt && r.gopt == m.gopt && r.pq == m.pq && r.zmat
                == m.zmat
            &&& b.within(t.xl[i], t.xu[i]) ==> r.xbase[i].key() == b.key()
        }),
{
    reveal(base_moved);
    reveal(at_most);
    reveal(below);
    reveal(max_of);
    reveal(min_of);
    lemma_negation_value(m.xopt()[i]);
    lemma_sum_error(m.xpt[k][i], -m.xopt()[i]);
    let r = base_moved(t, m);
    let b = m.xbase[i] + m.xopt()[i];
    if b.within(t.xl[i], t.xu[i]) {
        assert(r.xbase[i] == max_of(t.xl[i], min_of(t.xu[i], b)));
    }
    if k == m.kopt {
        assert(r.xpt[k][i] == zero());
    } else {
        assert(r.xpt[k][i] == m.xpt[k][i] - m.xopt()[i]);
    }
}

} // verus!
