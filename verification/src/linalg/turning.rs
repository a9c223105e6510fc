//! What a plane rotation does to numbers, up to rounding.
use vstd::arithmetic::power2::lemma2_to64;
use vstd::arithmetic::power2::lemma2_to64_rest;
use vstd::arithmetic::power2::lemma_pow2_strictly_increases;
use vstd::arithmetic::power2::lemma_pow2_adds;
use vstd::arithmetic::power2::lemma_pow2_pos;
use vstd::arithmetic::power2::lemma_pow2_unfold;
use vstd::arithmetic::power2::pow2;
use vstd::prelude::*;

use crate::consts::epsilon;
use crate::consts::norm_guard;
use crate::consts::one;
use crate::consts::realmax;
use crate::consts::realmin;
use crate::consts::zero;
use crate::entry::lemma_sum_finite;
use crate::float::arith::lemma_fields;
use crate::float::arith::magnitude_of;
use crate::float::arith::product_of;
use crate::float::arith::quotient_of;
use crate::float::arith::root_of;
use crate::float::arith::sum_of;
use crate::float::arith::with_sign_of;
use crate::float::convert::unity;
use crate::float::error::lemma_product_error;
use crate::float::error::lemma_quotient_error;
use crate::float::error::lemma_root_error;
use crate::float::error::lemma_size_product;
use crate::float::error::lemma_sum_error;
use crate::float::error::size;
use crate::float::error::SHARP;
use crate::float::expo;
use crate::float::near::lemma_order_value;
use crate::float::near::lemma_root_beside;
use crate::float::near::lemma_round_beside;
use crate::float::near::lemma_round_exact;
use crate::float::near::lemma_round_near;
use crate::float::near::lemma_sum_beside;
use crate::float::near::lemma_units_monotone;
use crate::float::near::top;
use crate::float::order::at_most;
use crate::float::order::below;
use crate::float::order::max_of;
use crate::float::sig;
use crate::float::units;
use crate::float::F64;
use crate::float::INF_MAG;
use crate::geometry::length::lemma_max_above;
use crate::linalg::norm_of;
use crate::linalg::rotation_of;
use crate::vector::all_finite;
use crate::vector::dot;
use crate::vector::dot_from;
use crate::vector::magnitudes;
use crate::vector::max_abs;
use crate::vector::max_from;

verus! {

/// `c` and `s` are the cosine and the sine of an angle, up to one part in two to the power 46,
/// counted in smallest units.
pub open spec fn unit_pair(c: int, s: int) -> bool {
    let u = unity();
    0x4000_0000_0000 * size(c * c + s * s - u * u) <= u * u
}

/// Turning `(p, q)` by the cosine `c` and the sine `s` makes the second number zero, up to one
/// part in two to the power 49.
pub open spec fn turns_away(p: int, q: int, c: int, s: int) -> bool {
    0x2_0000_0000_0000 * size(c * q - s * p) <= unity() * (size(p) + size(q))
}

/// A number is not larger than twice another if its square is not larger than twice that of the
/// other.
pub(crate) proof fn lemma_root_bound(p: int, r: int)
    requires
        r >= 0,
        p * p <= 2 * (r * r),
    ensures
        size(p) <= 2 * r,
{
    if size(p) > 2 * r {
        assert(p * p > 2 * (r * r)) by (nonlinear_arith)
            requires
                p > 2 * r || -p > 2 * r,
                r >= 0,
        ;
    }
}

/// The numbers `p` and `q` by a number `r` that is the root of the sum of their squares.
proof fn lemma_normalized(p: int, q: int, r: int, c: int, s: int)
    requires
        r > 0,
        0x1_0000_0000_0000 * size(r * r - (p * p + q * q)) <= p * p + q * q,
        0x20_0000_0000_0000 * size(c * r - p * unity()) <= size(p) * unity()
            + 0x10_0000_0000_0000 * r,
        0x20_0000_0000_0000 * size(s * r - q * unity()) <= size(q) * unity()
            + 0x10_0000_0000_0000 * r,
    ensures
        unit_pair(c, s),
        0x8_0000_0000_0000 * size(c * r - p * unity()) <= r * unity(),
        0x8_0000_0000_0000 * size(s * r - q * unity()) <= r * unity(),
        size(p) <= 2 * r,
        size(q) <= 2 * r,
        turns_away(p, q, c, s),
{
    let u = unity() as int;
    let n = p * p + q * q;
    let x = c * r - p * u;
    let y = s * r - q * u;
    let k = r * u;
    lemma2_to64();
    lemma2_to64_rest();
    lemma_pow2_strictly_increases(60, 1074);
    assert(p * p >= 0 && q * q >= 0) by (nonlinear_arith);
    lemma_root_bound(p, r);
    lemma_root_bound(q, r);
    assert(size(p) * u <= 2 * k) by (nonlinear_arith)
        requires
            size(p) <= 2 * r,
            k == r * u,
            u > 0,
    ;
    assert(size(q) * u <= 2 * k) by (nonlinear_arith)
        requires
            size(q) <= 2 * r,
            k == r * u,
            u > 0,
    ;
    assert(0x10_0000_0000_0000 * r <= k) by (nonlinear_arith)
        requires
            k == r * u,
            u >= 0x10_0000_0000_0000,
            r > 0,
    ;
    assert(0x8_0000_0000_0000 * size(x) <= k);
    assert(0x8_0000_0000_0000 * size(y) <= k);
    lemma_unit(p, q, r, c, s, u, x, y);
    lemma_cross(p, q, r, c, s, u, x, y);
}

/// The sum of the squares.
proof fn lemma_unit(p: int, q: int, r: int, c: int, s: int, u: int, x: int, y: int)
    requires
        r > 0,
        u > 0,
        u == unity(),
        0x1_0000_0000_0000 * size(r * r - (p * p + q * q)) <= p * p + q * q,
        x == c * r - p * u,
        y == s * r - q * u,
        0x8_0000_0000_0000 * size(x) <= r * u,
        0x8_0000_0000_0000 * size(y) <= r * u,
        size(p) <= 2 * r,
        size(q) <= 2 * r,
    ensures
        unit_pair(c, s),
{
    let k = r * u;
    let n = p * p + q * q;
    let m = r * r;
    let v = u * u;
    let h = c * c + s * s;
    assert(k > 0) by (nonlinear_arith)
        requires
            k == r * u,
            r > 0,
            u > 0,
    ;
    assert(k * k == m * v) by (nonlinear_arith)
        requires
            k == r * u,
            m == r * r,
            v == u * u,
    ;
    let px = (p * u) * x;
    let qy = (q * u) * y;
    assert(h * m == n * v + 2 * px + 2 * qy + x * x + y * y) by {
        let cr = c * r;
        let sr = s * r;
        assert(cr * cr == (p * u) * (p * u) + 2 * px + x * x) by (nonlinear_arith)
            requires
                cr == p * u + x,
                px == (p * u) * x,
        ;
        assert(sr * sr == (q * u) * (q * u) + 2 * qy + y * y) by (nonlinear_arith)
            requires
                sr == q * u + y,
                qy == (q * u) * y,
        ;
        assert((p * u) * (p * u) + (q * u) * (q * u) == n * v) by (nonlinear_arith)
            requires
                n == p * p + q * q,
                v == u * u,
        ;
        assert(cr * cr + sr * sr == h * m) by (nonlinear_arith)
            requires
                cr == c * r,
                sr == s * r,
                h == c * c + s * s,
                m == r * r,
        ;
    }
    lemma_times(p, u, x, r);
    lemma_times(q, u, y, r);
    lemma_square_small(x, k);
    lemma_square_small(y, k);
    assert(v > 0) by (nonlinear_arith)
        requires
            v == u * u,
            u > 0,
    ;
    lemma_size_product(m - n, v);
    assert((m - n) * v == m * v - n * v) by (nonlinear_arith);
    let g = size(m - n);
    assert(0x1_0000_0000_0000 * (g * v) <= n * v) by (nonlinear_arith)
        requires
            0x1_0000_0000_0000 * g <= n,
            v > 0,
    ;
    assert(0x4000_0000_0000 * size(h * m - v * m) <= v * m) by {
        assert(m * v == v * m) by (nonlinear_arith);
    }
    assert(0x4000_0000_0000 * size(h - v) <= v) by {
        lemma_size_product(h - v, m);
        assert((h - v) * m == h * m - v * m) by (nonlinear_arith);
        assert(m > 0) by (nonlinear_arith)
            requires
                m == r * r,
                r > 0,
        ;
        let z = size(h - v);
        assert(0x4000_0000_0000 * z <= v) by (nonlinear_arith)
            requires
                0x4000_0000_0000 * (z * m) <= v * m,
                m > 0,
        ;
    }
}

/// The product of a number that is not larger than `2 r`, times `u`, with one that is small beside
/// `r u`.
proof fn lemma_times(p: int, u: int, x: int, r: int)
    requires
        u > 0,
        r > 0,
        size(p) <= 2 * r,
        0x8_0000_0000_0000 * size(x) <= r * u,
    ensures
        0x4_0000_0000_0000 * size((p * u) * x) <= (r * u) * (r * u),
{
    let k = r * u;
    lemma_size_product(p, u);
    lemma_size_product(p * u, x);
    let a = size(p * u);
    let b = size(x);
    assert(a <= 2 * k) by (nonlinear_arith)
        requires
            a == size(p) * u,
            size(p) <= 2 * r,
            k == r * u,
            u > 0,
    ;
    assert(0x4_0000_0000_0000 * (a * b) <= k * k) by (nonlinear_arith)
        requires
            0 <= a <= 2 * k,
            0 <= b,
            0x8_0000_0000_0000 * b <= k,
    ;
}

/// The square of a number that is small beside another.
proof fn lemma_square_small(x: int, k: int)
    requires
        k > 0,
        0x8_0000_0000_0000 * size(x) <= k,
    ensures
        0 <= x * x,
        0x8_0000_0000_0000 * (x * x) <= k * k,
{
    lemma_size_product(x, x);
    let b = size(x);
    assert(x * x == b * b) by {
        assert(x * x >= 0) by (nonlinear_arith);
    }
    assert(0x8_0000_0000_0000 * (b * b) <= k * k) by (nonlinear_arith)
        requires
            0 <= b,
            0x8_0000_0000_0000 * b <= k,
    ;
}

/// What is left of the second number.
proof fn lemma_cross(p: int, q: int, r: int, c: int, s: int, u: int, x: int, y: int)
    requires
        r > 0,
        u > 0,
        u == unity(),
        x == c * r - p * u,
        y == s * r - q * u,
        0x8_0000_0000_0000 * size(x) <= r * u,
        0x8_0000_0000_0000 * size(y) <= r * u,
    ensures
        turns_away(p, q, c, s),
        0x8_0000_0000_0000 * size(c * q - s * p) <= u * (size(p) + size(q)),
{
    let z = c * q - s * p;
    let k = r * u;
    assert(z * r == q * x - p * y) by {
        assert((c * q - s * p) * r == q * (c * r) - p * (s * r)) by (nonlinear_arith);
        assert(q * (p * u + x) == q * (p * u) + q * x) by (nonlinear_arith);
        assert(p * (q * u + y) == p * (q * u) + p * y) by (nonlinear_arith);
        assert(q * (p * u) == p * (q * u)) by (nonlinear_arith);
    }
    lemma_size_product(z, r);
    lemma_size_product(q, x);
    lemma_size_product(p, y);
    let a = size(p);
    let b = size(q);
    assert(0x8_0000_0000_0000 * (b * size(x)) <= b * k) by (nonlinear_arith)
        requires
            0x8_0000_0000_0000 * size(x) <= k,
            b >= 0,
    ;
    assert(0x8_0000_0000_0000 * (a * size(y)) <= a * k) by (nonlinear_arith)
        requires
            0x8_0000_0000_0000 * size(y) <= k,
            a >= 0,
    ;
    let g = size(z);
    assert(0x8_0000_0000_0000 * g <= u * (a + b)) by (nonlinear_arith)
        requires
            0x8_0000_0000_0000 * (g * r) <= b * k + a * k,
            k == r * u,
            r > 0,
    ;
}

/// The sum of two squares that do not underflow, and its root.
proof fn lemma_hypotenuse(p: F64, q: F64)
    requires
        p.finite(),
        q.finite(),
        (p * p + q * q).finite(),
        p.value() * p.value() + q.value() * q.value() >= SHARP * unity(),
    ensures
        ({
            let r = root_of(p * p + q * q);
            let n = p.value() * p.value() + q.value() * q.value();
            &&& r.finite()
            &&& r.value() > 0
            &&& 0x1_0000_0000_0000 * size(r.value() * r.value() - n) <= n
        }),
{
    let u = unity() as int;
    let a = p.value() * p.value();
    let b = q.value() * q.value();
    lemma_pow2_pos(1074);
    assert((p * p).finite() && (q * q).finite()) by {
        reveal(sum_of);
    }
    lemma_product_error(p, p);
    lemma_product_error(q, q);
    lemma_sum_error(p * p, q * q);
    let x = (p * p).value();
    let y = (q * q).value();
    assert(a >= 0 && b >= 0) by (nonlinear_arith)
        requires
            a == p.value() * p.value(),
            b == q.value() * q.value(),
    ;
    assert(x >= 0 && y >= 0) by {
        reveal(product_of);
    }
    let w = (p * p + q * q).value();
    let e = w - (x + y);
    lemma_size_product(e, u);
    assert(SHARP * (size(e) * u) <= (x + y) * u) by (nonlinear_arith)
        requires
            SHARP * size(e) <= x + y,
            u > 0,
    ;
    assert((x + y) * u == x * u + y * u) by (nonlinear_arith);
    assert(w * u == e * u + x * u + y * u) by (nonlinear_arith)
        requires
            w == e + x + y,
    ;
    assert(0x4_0000_0000_0000 * size(w * u - (a + b)) <= a + b);
    assert(w > 0) by (nonlinear_arith)
        requires
            w * u > 0,
            u > 0,
    ;
    lemma_fields(0);
    lemma_root_error(p * p + q * q);
}

/// The value of the number one.
pub(crate) proof fn lemma_one()
    ensures
        one().value() == unity(),
        units(one().mag()) == unity(),
        unity() >= 0x1000_0000_0000_0000,
        4 * unity() <= top(),
        one() * one() == one(),
{
    lemma2_to64();
    lemma2_to64_rest();
    lemma_pow2_adds(52, 1022);
    lemma_pow2_strictly_increases(60, 1074);
    assert(sig(one().mag()) == pow2(52) && expo(one().mag()) == 1022);
    let m = (INF_MAG - 1) as nat;
    let s = sig(m);
    lemma_fields(m);
    assert(expo(m) == 2045);
    lemma_pow2_strictly_increases(1074, 1076);
    lemma_pow2_unfold(1076);
    lemma_pow2_unfold(1075);
    lemma_pow2_strictly_increases(1076, 2045);
    assert(s * pow2(2045) >= pow2(2045)) by (nonlinear_arith)
        requires
            s >= 1,
    ;
    reveal(product_of);
    lemma_pow2_pos(1074);
    lemma_round_exact(one().mag(), unity());
}

/// A number by one that is not below its half is finite.
proof fn lemma_share(a: F64, b: F64)
    requires
        a.finite(),
        b.finite(),
        !b.zero(),
        size(a.value()) <= 2 * size(b.value()),
    ensures
        (a / b).finite(),
{
    reveal(quotient_of);
    lemma_one();
    lemma_fields(b.mag());
    let u = unity();
    let x = units(a.mag());
    let y = units(b.mag());
    let t = top();
    assert(x * u <= t * y) by (nonlinear_arith)
        requires
            x <= 2 * y,
            4 * u <= t,
    ;
    lemma_round_near(x * u, y);
}

/// A number that is not above another times the spacing of numbers beside one is small beside it.
proof fn lemma_negligible(a: F64, b: F64)
    requires
        a.finite(),
        b.finite(),
        magnitude_of(a) <= epsilon() * magnitude_of(b),
    ensures
        0x4_0000_0000_0000 * size(a.value()) <= size(b.value()),
{
    let e = epsilon();
    let y = magnitude_of(b);
    let x = magnitude_of(a);
    let u = unity() as int;
    reveal(magnitude_of);
    lemma_one();
    lemma2_to64();
    lemma2_to64_rest();
    lemma_pow2_adds(52, 970);
    lemma_pow2_adds(52, 1022);
    assert(sig(e.mag()) == pow2(52) && expo(e.mag()) == 970);
    assert(e.value() * 0x10_0000_0000_0000 == u);
    assert((e * y).finite()) by {
        reveal(product_of);
        let n = units(e.mag()) * units(y.mag());
        lemma_units_monotone(y.mag(), (INF_MAG - 1) as nat);
        assert(n <= top() * unity()) by (nonlinear_arith)
            requires
                n == units(e.mag()) * units(y.mag()),
                units(e.mag()) <= unity(),
                units(y.mag()) <= top(),
        ;
        lemma_round_near(n, unity());
    }
    lemma_product_error(e, y);
    lemma_order_value(x, e * y);
    let p = (e * y).value();
    let v = y.value();
    let z = x.value();
    assert(0x10_0000_0000_0000 * (e.value() * v) == u * v) by (nonlinear_arith)
        requires
            e.value() * 0x10_0000_0000_0000 == u,
    ;
    assert(u * v >= 0) by (nonlinear_arith)
        requires
            u > 0,
            v >= 0,
    ;
    let ev = e.value() * v;
    assert(0 <= ev <= u * v);
    let pu = p * u;
    let uv = u * v;
    assert(0x20_0000_0000_0000 * size(pu - ev) <= ev + 0x10_0000_0000_0000 * u);
    assert(0x10_0000_0000_0000 * ev == uv);
    assert(0x20_0000_0000_0000 * (pu - ev) <= ev + 0x10_0000_0000_0000 * u);
    assert(0x10_0000_0000_0000 * (p * u) <= 2 * (u * v) + 0x8_0000_0000_0000 * u);
    assert(0x10_0000_0000_0000 * p <= 2 * v + 0x8_0000_0000_0000) by (nonlinear_arith)
        requires
            0x10_0000_0000_0000 * (p * u) <= 2 * (u * v) + 0x8_0000_0000_0000 * u,
            u > 0,
    ;
}

/// The pair where the second number is negligible: no turn, or half a turn.
proof fn lemma_no_turn(p: F64, q: F64, c: F64)
    requires
        p.finite(),
        q.finite(),
        0x4_0000_0000_0000 * size(q.value()) <= size(p.value()),
        c.mag() == one().mag(),
    ensures
        unit_pair(c.value(), 0),
        unit_pair(0, c.value()),
        turns_away(p.value(), q.value(), c.value(), 0),
        turns_away(q.value(), p.value(), 0, c.value()),
{
    lemma_one();
    let u = unity() as int;
    let v = c.value();
    assert(v * v == u * u) by (nonlinear_arith)
        requires
            v == u || v == -u,
    ;
    lemma_size_product(v, q.value());
    let b = size(q.value());
    let a = size(p.value());
    assert(0x2_0000_0000_0000 * (u * b) <= u * (a + b)) by (nonlinear_arith)
        requires
            0x4_0000_0000_0000 * b <= a,
            b >= 0,
            u > 0,
    ;
    assert(u * (a + b) == u * (b + a));
}

/// The pair by the root of the sum of its squares.
proof fn lemma_plain_turn(p: F64, q: F64)
    requires
        p.finite(),
        q.finite(),
        magnitude_of(p) > root_of(realmin()),
        magnitude_of(q) > root_of(realmin()),
        magnitude_of(p) < root_of(realmax() / norm_guard()),
        magnitude_of(q) < root_of(realmax() / norm_guard()),
    ensures
        ({
            let r = norm_of(seq![p, q]);
            &&& (p / r).finite()
            &&& (q / r).finite()
            &&& unit_pair((p / r).value(), (q / r).value())
            &&& turns_away(p.value(), q.value(), (p / r).value(), (q / r).value())
        }),
{
    lemma_one();
    lemma_guarded(p);
    lemma_guarded(q);
    lemma_sum_finite(p * p, q * q);
    lemma_hypotenuse(p, q);
    let y = root_of(p * p + q * q);
    let x = seq![p, q];
    assert(norm_of(x) == y) by {
        reveal_with_fuel(dot_from, 3);
        reveal_with_fuel(max_from, 3);
        assert(all_finite(x));
        assert(zero() + p * p == p * p) by {
            let a = p * p;
            reveal(sum_of);
            lemma_fields(0);
            lemma_fields(a.mag());
            lemma_round_exact(a.mag(), 1);
            assert((zero() + a).bits == a.bits);
        }
        assert(dot(x, x) == p * p + q * q);
        let m = magnitudes(x);
        assert(m[0] == magnitude_of(p));
        assert(!m[0].nan()) by {
            reveal(magnitude_of);
        }
        lemma_max_above(zero(), m, 2, 0);
        assert(!(max_abs(x) <= zero())) by {
            reveal(at_most);
            reveal(magnitude_of);
        }
        assert(!(y <= zero())) by {
            reveal(at_most);
            lemma_fields(0);
        }
    }
    lemma_fields(0);
    let a = p.value();
    let b = q.value();
    let r = y.value();
    assert(a * a >= 0 && b * b >= 0) by (nonlinear_arith);
    lemma_root_bound(a, r);
    lemma_root_bound(b, r);
    lemma_share(p, y);
    lemma_share(q, y);
    lemma_quotient_error(p, y);
    lemma_quotient_error(q, y);
    lemma_normalized(a, b, r, (p / y).value(), (q / y).value());
}

/// A number above the lower guard.
proof fn lemma_low_guard(p: F64)
    requires
        p.finite(),
        magnitude_of(p) > root_of(realmin()),
    ensures
        ({
            let v = size(p.value());
            v * v >= SHARP * unity() && v > 0
        }),
{
    reveal(magnitude_of);
    reveal(root_of);
    reveal(below);
    lemma2_to64();
    lemma2_to64_rest();
    let m: nat = 0x2000_0000_0000_0000;
    let u = unity();
    assert(sig(m) == pow2(52) && expo(m) == 511);
    lemma_pow2_adds(52, 511);
    lemma_pow2_adds(563, 563);
    lemma_pow2_adds(52, 1074);
    lemma_pow2_pos(563);
    assert(sig(realmin().mag()) == pow2(52) && expo(realmin().mag()) == 0);
    assert(units(realmin().mag()) == pow2(52)) by (nonlinear_arith)
        requires
            units(realmin().mag()) == pow2(52) * pow2(0),
            pow2(0) == 1,
    ;
    let n = units(realmin().mag()) * u;
    lemma_root_beside(n, m);
    assert(p.mag() >= m);
    lemma_units_monotone(m, p.mag());
    let v = units(p.mag());
    assert(v * v >= pow2(563) * pow2(563)) by (nonlinear_arith)
        requires
            v >= pow2(563),
    ;
}

/// A number below the upper guard.
proof fn lemma_high_guard(p: F64)
    requires
        p.finite(),
        magnitude_of(p) < root_of(realmax() / norm_guard()),
    ensures
        ({
            let v = size(p.value());
            205 * (v * v) <= 100 * (top() * unity())
        }),
{
    reveal(magnitude_of);
    lemma_one();
    lemma2_to64();
    lemma2_to64_rest();
    lemma_fields(0);
    let g = norm_guard();
    let u = unity() as int;
    let z = realmax() / g;
    let tp = top() as int;
    lemma_pow2_adds(52, 1022);
    lemma_pow2_adds(51, 1023);
    lemma_pow2_pos(1023);
    assert(sig(g.mag()) == 0x10_cccc_cccc_cccd && expo(g.mag()) == 1023);
    assert(100 * g.value() >= 209 * u && g.value() <= 4 * u);
    assert(z.finite()) by {
        reveal(quotient_of);
        let n = top() * unity();
        let d = units(g.mag());
        assert(n <= top() * d) by (nonlinear_arith)
            requires
                n == top() * unity(),
                unity() <= d,
        ;
        lemma_round_near(n, d);
    }
    lemma_quotient_error(realmax(), g);
    assert(!z.sign()) by {
        reveal(quotient_of);
    }
    let gv = g.value();
    let zv = z.value();
    let tu = tp * u;
    assert(u * u <= tu) by (nonlinear_arith)
        requires
            tu == tp * u,
            u <= tp,
            u > 0,
    ;
    assert(SHARP * gv <= 4 * (u * u)) by (nonlinear_arith)
        requires
            gv <= 4 * u,
            u >= SHARP,
            u > 0,
    ;
    assert(1000 * (zv * gv) <= 1001 * tu);
    assert(209 * (zv * u) <= 100 * (zv * gv)) by (nonlinear_arith)
        requires
            100 * gv >= 209 * u,
            zv >= 0,
    ;
    assert(zv >= 1) by {
        if zv <= 0 {
            assert(zv == 0);
            assert(zv * gv == 0) by (nonlinear_arith)
                requires
                    zv == 0,
            ;
        }
    }
    lemma_root_error(z);
    let h = root_of(z).value();
    let v = size(p.value());
    lemma_order_value(magnitude_of(p), root_of(z));
    assert(v * v <= h * h) by (nonlinear_arith)
        requires
            0 <= v <= h,
    ;
}

/// A number between the guards has a square that neither underflows nor overflows.
proof fn lemma_guarded(p: F64)
    requires
        p.finite(),
        magnitude_of(p) > root_of(realmin()),
        magnitude_of(p) < root_of(realmax() / norm_guard()),
    ensures
        !p.zero(),
        (p * p).finite(),
        !(p * p).sign(),
        !(p * p).zero(),
        p.value() * p.value() >= SHARP * unity(),
        2 * (p * p).value() <= top(),
{
    reveal(magnitude_of);
    lemma_one();
    lemma2_to64();
    lemma2_to64_rest();
    lemma_fields(0);
    let u = unity() as int;
    let v = size(p.value());
    lemma_size_product(p.value(), p.value());
    assert(p.value() * p.value() == v * v) by {
        assert(p.value() * p.value() >= 0) by (nonlinear_arith);
    }
    lemma_low_guard(p);
    lemma_high_guard(p);
    let n = (v * v) as nat;
    reveal(product_of);
    assert(n <= top() * unity()) by (nonlinear_arith)
        requires
            205 * n <= 100 * (top() * unity()),
    ;
    lemma_round_near(n, unity());
    lemma_product_error(p, p);
    let x = (p * p).value();
    let tp = top() as int;
    assert(0 <= x);
    assert(u * tp >= u * u) by (nonlinear_arith)
        requires
            u > 0,
            tp >= u,
    ;
    assert(SHARP * u <= u * u) by (nonlinear_arith)
        requires
            u >= SHARP,
    ;
    assert(tp * u == u * tp) by (nonlinear_arith);
    assert(2 * (x * u) <= tp * u);
    assert(2 * x <= tp) by (nonlinear_arith)
        requires
            2 * (x * u) <= tp * u,
            u > 0,
    ;
    assert(x > 0) by (nonlinear_arith)
        requires
            x * u > 0,
            u > 0,
    ;
}

/// The pair of one and `t`, by the root of the sum of its squares with the sign of `p`, where `t`
/// is the smaller number `q` by the larger number `p`.
spec fn flat_pair(p: F64, q: F64) -> (F64, F64) {
    let t = q / p;
    let u = with_sign_of(max_of(max_of(one(), magnitude_of(t)), root_of(one() + t * t)), p);
    (one() / u, t / u)
}

/// The root in the pair of one and `t`.
proof fn lemma_flat_root(t: F64)
    requires
        t.finite(),
        size(t.value()) <= unity(),
    ensures
        ({
            let y = root_of(one() + t * t);
            let n = unity() * unity() + t.value() * t.value();
            &&& y.finite()
            &&& y.value() >= unity()
            &&& !y.sign()
            &&& max_of(max_of(one(), magnitude_of(t)), y) == y
            &&& 0x1_0000_0000_0000 * size(y.value() * y.value() - n) <= n
        }),
{
    lemma_one();
    lemma_fields(0);
    let u = unity() as int;
    let v = size(t.value());
    lemma_size_product(t.value(), t.value());
    assert(0 <= v * v <= u * u) by (nonlinear_arith)
        requires
            0 <= v <= u,
    ;
    assert(t.value() * t.value() == v * v) by {
        assert(t.value() * t.value() >= 0) by (nonlinear_arith);
    }
    let tt = t * t;
    assert(tt.finite() && 0 <= tt.value() <= u) by {
        reveal(product_of);
        let n = (v * v) as nat;
        lemma_pow2_pos(1074);
        lemma_round_beside(n, unity(), one().mag());
        lemma_units_monotone(tt.mag(), one().mag());
    }
    lemma_sum_finite(one(), tt);
    assert(SHARP * u <= u * u) by (nonlinear_arith)
        requires
            u >= SHARP,
    ;
    lemma_hypotenuse(one(), t);
    let w = one() + tt;
    let y = root_of(w);
    lemma_sum_beside(one(), tt, one());
    assert(w.mag() >= one().mag() && !w.sign()) by {
        reveal(at_most);
    }
    lemma_units_monotone(one().mag(), w.mag());
    assert(y.mag() >= one().mag() && !y.sign()) by {
        reveal(root_of);
        let n = units(w.mag()) * unity();
        assert(n >= unity() * unity()) by (nonlinear_arith)
            requires
                n == units(w.mag()) * unity(),
                units(w.mag()) >= unity(),
        ;
        lemma_root_beside(n, one().mag());
    }
    lemma_units_monotone(one().mag(), y.mag());
    let at = magnitude_of(t);
    reveal(magnitude_of);
    lemma_order_value(one(), at);
    lemma_order_value(one(), y);
    assert(max_of(one(), at) == one()) by {
        reveal(max_of);
    }
    assert(max_of(one(), y) == y) by {
        reveal(max_of);
        reveal(below);
    }
}

/// The pair that takes the larger number `p` and the smaller number `q` to one number.
proof fn lemma_flat_turn(p: F64, q: F64)
    requires
        p.finite(),
        q.finite(),
        !p.zero(),
        size(q.value()) <= size(p.value()),
    ensures
        ({
            let (c, s) = flat_pair(p, q);
            &&& c.finite()
            &&& s.finite()
            &&& unit_pair(c.value(), s.value())
            &&& turns_away(p.value(), q.value(), c.value(), s.value())
        }),
{
    lemma_one();
    lemma_fields(0);
    lemma_fields(p.mag());
    let u = unity() as int;
    let t = q / p;
    assert(t.finite() && size(t.value()) <= u) by {
        reveal(quotient_of);
        let n = units(q.mag()) * unity();
        let d = units(p.mag());
        assert(n <= unity() * d) by (nonlinear_arith)
            requires
                n == units(q.mag()) * unity(),
                units(q.mag()) <= d,
        ;
        lemma_round_beside(n, d, one().mag());
        lemma_units_monotone(t.mag(), one().mag());
    }
    lemma_quotient_error(q, p);
    lemma_flat_root(t);
    let y = root_of(one() + t * t);
    let w = with_sign_of(y, p);
    reveal(with_sign_of);
    let (c, s) = flat_pair(p, q);
    lemma_share(one(), w);
    lemma_share(t, w);
    lemma_quotient_error(one(), w);
    lemma_quotient_error(t, w);
    let r = y.value();
    let tv = t.value();
    let cv = if p.sign() {
        -c.value()
    } else {
        c.value()
    };
    let sv = if p.sign() {
        -s.value()
    } else {
        s.value()
    };
    assert(cv * r == c.value() * w.value()) by (nonlinear_arith)
        requires
            w.value() == r && cv == c.value() || w.value() == -r && cv == -c.value(),
    ;
    assert(sv * r == s.value() * w.value()) by (nonlinear_arith)
        requires
            w.value() == r && sv == s.value() || w.value() == -r && sv == -s.value(),
    ;
    lemma_normalized(u, tv, r, cv, sv);
    assert(cv * cv == c.value() * c.value()) by (nonlinear_arith)
        requires
            cv == c.value() || cv == -c.value(),
    ;
    assert(sv * sv == s.value() * s.value()) by (nonlinear_arith)
        requires
            sv == s.value() || sv == -s.value(),
    ;
    lemma_flat_cross(p.value(), q.value(), tv, r, cv, sv, u);
    assert(size(cv * q.value() - sv * p.value()) == size(
        c.value() * q.value() - s.value() * p.value(),
    )) by {
        let a = c.value() * q.value();
        let b = s.value() * p.value();
        assert((-c.value()) * q.value() == -a) by (nonlinear_arith)
            requires
                a == c.value() * q.value(),
        ;
        assert((-s.value()) * p.value() == -b) by (nonlinear_arith)
            requires
                b == s.value() * p.value(),
        ;
    }
}

/// What is left of the smaller number.
proof fn lemma_flat_cross(p: int, q: int, t: int, r: int, c: int, s: int, u: int)
    requires
        u == unity(),
        u >= 0x1000_0000_0000_0000,
        r >= u,
        2 * SHARP * size(t * p - q * u) <= size(q) * u + SHARP * size(p),
        0x8_0000_0000_0000 * size(c * r - u * u) <= r * u,
        0x8_0000_0000_0000 * size(s * r - t * u) <= r * u,
    ensures
        turns_away(p, q, c, s),
{
    let x = c * r - u * u;
    let y = s * r - t * u;
    let e = t * p - q * u;
    let z = c * q - s * p;
    let k = r * u;
    assert(z * r == q * x - p * y - u * e) by {
        assert((c * q - s * p) * r == q * (c * r) - p * (s * r)) by (nonlinear_arith);
        assert(q * (u * u + x) == u * (q * u) + q * x) by (nonlinear_arith);
        assert(p * (t * u + y) == u * (t * p) + p * y) by (nonlinear_arith);
        assert(u * (t * p - q * u) == u * (t * p) - u * (q * u)) by (nonlinear_arith);
    }
    lemma_size_product(z, r);
    lemma_size_product(q, x);
    lemma_size_product(p, y);
    lemma_size_product(u, e);
    let a = size(p);
    let b = size(q);
    assert(0x8_0000_0000_0000 * (b * size(x)) <= b * k) by (nonlinear_arith)
        requires
            0x8_0000_0000_0000 * size(x) <= k,
            b >= 0,
    ;
    assert(0x8_0000_0000_0000 * (a * size(y)) <= a * k) by (nonlinear_arith)
        requires
            0x8_0000_0000_0000 * size(y) <= k,
            a >= 0,
    ;
    assert(SHARP * a <= a * u) by (nonlinear_arith)
        requires
            u >= SHARP,
            a >= 0,
    ;
    let ee = size(e);
    assert(2 * SHARP * ee <= (a + b) * u) by (nonlinear_arith)
        requires
            2 * SHARP * ee <= b * u + a * u,
    ;
    assert(2 * SHARP * (u * ee) <= (a + b) * k) by (nonlinear_arith)
        requires
            2 * SHARP * ee <= (a + b) * u,
            k == r * u,
            r >= u,
            u > 0,
            a + b >= 0,
    ;
    let g = size(z);
    assert((a + b) * k == a * k + b * k) by (nonlinear_arith);
    assert(0x2_0000_0000_0000 * (g * r) <= a * k + b * k);
    assert(0x2_0000_0000_0000 * g <= u * (a + b)) by (nonlinear_arith)
        requires
            0x2_0000_0000_0000 * (g * r) <= a * k + b * k,
            k == r * u,
            r > 0,
    ;
}

/// The cosine and the sine of a plane rotation are those of an angle, and that angle turns the
/// pair so that the second number becomes zero; both up to rounding.
pub proof fn lemma_rotation(p: F64, q: F64)
    requires
        p.finite(),
        q.finite(),
    ensures
        rotation_of(p, q).0.finite(),
        rotation_of(p, q).1.finite(),
        unit_pair(rotation_of(p, q).0.value(), rotation_of(p, q).1.value()),
        turns_away(
            p.value(),
            q.value(),
            rotation_of(p, q).0.value(),
            rotation_of(p, q).1.value(),
        ),
{
    let ap = magnitude_of(p);
    let aq = magnitude_of(q);
    lemma_fields(0);
    lemma_one();
    reveal(with_sign_of);
    if ap <= zero() && aq <= zero() {
        reveal(at_most);
        reveal(magnitude_of);
        lemma_no_turn(p, q, one());
    } else if aq <= epsilon() * ap {
        lemma_negligible(q, p);
        lemma_no_turn(p, q, with_sign_of(one(), p));
    } else if ap <= epsilon() * aq {
        lemma_negligible(p, q);
        lemma_no_turn(q, p, with_sign_of(one(), q));
    } else {
        let lo = root_of(realmin());
        let hi = root_of(realmax() / norm_guard());
        if ap > lo && ap < hi && aq > lo && aq < hi {
            lemma_plain_turn(p, q);
        } else {
            assert(ap.mag() == p.mag() && aq.mag() == q.mag() && !ap.sign() && !aq.sign()) by {
                reveal(magnitude_of);
            }
            lemma_order_value(aq, ap);
            lemma_order_value(ap, zero());
            lemma_order_value(aq, zero());
            if ap > aq {
                lemma_flat_turn(p, q);
            } else {
                lemma_flat_turn(q, p);
                let (s, c) = flat_pair(q, p);
                assert(rotation_of(p, q) == (c, s));
                assert(s.value() * s.value() + c.value() * c.value() == c.value() * c.value()
                    + s.value() * s.value());
            }
        }
    }
}

} // verus!
