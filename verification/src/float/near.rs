//! How near a rounded result is to the exact one.
use vstd::arithmetic::power2::lemma2_to64;
use vstd::arithmetic::power2::lemma2_to64_rest;
use vstd::arithmetic::power2::lemma_pow2_adds;
use vstd::arithmetic::power2::lemma_pow2_pos;
use vstd::arithmetic::power2::lemma_pow2_strictly_increases;
use vstd::arithmetic::power2::lemma_pow2_unfold;
use vstd::arithmetic::power2::pow2;
use vstd::prelude::*;

use crate::consts::half;
use crate::consts::two;
use crate::consts::zero;
use crate::float::arith::lemma_fields;
use crate::float::arith::negation_of;
use crate::float::arith::product_of;
use crate::float::arith::sum_of;
use crate::float::expo;
use crate::float::order::at_most;
use crate::float::order::below;
use crate::float::order::same;
use crate::float::round::encode;
use crate::float::round::is_root;
use crate::float::round::lemma_quantum;
use crate::float::round::nearest_even;
use crate::float::round::quantum;
use crate::float::round::root_quantum;
use crate::float::round::round_ratio;
use crate::float::round::round_root;
use crate::float::round::PRECISION_SCALE;
use crate::float::sig;
use crate::float::units;
use crate::float::F64;
use crate::float::HIDDEN;
use crate::float::INF_MAG;

verus! {

/// The largest finite number, in smallest units.
pub open spec fn top() -> nat {
    units((INF_MAG - 1) as nat)
}

/// Half a unit in the last place of the largest numbers, in smallest units.
pub open spec fn half_ulp() -> nat {
    pow2(2044)
}

/// A power of two is not below the one of a smaller exponent.
proof fn lemma_pow2_grows(a: nat, b: nat)
    requires
        a <= b,
    ensures
        pow2(a) <= pow2(b),
{
    if a < b {
        lemma_pow2_strictly_increases(a, b);
    }
}

/// The quantum of a ratio bounds it.
proof fn lemma_quantum_bounds(n: nat, d: nat)
    requires
        d > 0,
    ensures
        n < d * pow2(53 + quantum(n, d)),
        quantum(n, d) > 0 ==> n >= d * pow2((52 + quantum(n, d)) as nat),
    decreases n - d,
{
    lemma2_to64();
    lemma2_to64_rest();
    assert(pow2(53) == PRECISION_SCALE);
    if n >= d * (PRECISION_SCALE as nat) {
        lemma_quantum_bounds(n, 2 * d);
        let f = quantum(n, 2 * d);
        lemma_pow2_unfold(54 + f);
        assert(d * pow2(54 + f) == (2 * d) * pow2(53 + f)) by (nonlinear_arith)
            requires
                pow2(54 + f) == 2 * pow2(53 + f),
        ;
        if f > 0 {
            lemma_pow2_unfold(53 + f);
            assert(d * pow2(53 + f) == (2 * d) * pow2((52 + f) as nat)) by (nonlinear_arith)
                requires
                    pow2(53 + f) == 2 * pow2((52 + f) as nat),
            ;
        }
    }
}

/// The quotient and the remainder that rounding looks at.
proof fn lemma_nearest(n: nat, d: nat, k: nat)
    requires
        d > 0,
    ensures
        nearest_even(n, d) * d <= n + d / 2,
        n <= nearest_even(n, d) * d + d / 2,
        n <= k * d ==> nearest_even(n, d) <= k,
        n >= k * d ==> nearest_even(n, d) >= k,
{
    let q = n / d;
    let r = n % d;
    vstd::arithmetic::div_mod::lemma_fundamental_div_mod(n as int, d as int);
    vstd::arithmetic::div_mod::lemma_mod_bound(n as int, d as int);
    assert(q * d == d * q) by (nonlinear_arith);
    assert((q + 1) * d == q * d + d) by (nonlinear_arith);
    assert(n <= k * d ==> q <= k && (q == k ==> r == 0)) by (nonlinear_arith)
        requires
            n == q * d + r,
            0 <= r,
            d > 0,
    ;
    assert(n >= k * d ==> q >= k) by (nonlinear_arith)
        requires
            n == q * d + r,
            r < d,
            d > 0,
    ;
}

/// Rounding to multiples keeps the order.
proof fn lemma_nearest_monotone(a: nat, b: nat, d: nat)
    requires
        d > 0,
        a <= b,
    ensures
        nearest_even(a, d) <= nearest_even(b, d),
{
    vstd::arithmetic::div_mod::lemma_div_is_ordered(a as int, b as int, d as int);
    vstd::arithmetic::div_mod::lemma_fundamental_div_mod(a as int, d as int);
    vstd::arithmetic::div_mod::lemma_fundamental_div_mod(b as int, d as int);
}

/// The rounded significand and the exponent of a ratio.
proof fn lemma_significand(n: nat, d: nat)
    requires
        d > 0,
    ensures
        ({
            let e = quantum(n, d);
            let q = nearest_even(n, d * pow2(e));
            &&& d * pow2(e) > 0
            &&& q <= 2 * HIDDEN
            &&& e > 0 ==> q >= HIDDEN
            &&& round_ratio(n, d) == encode(q, e)
        }),
{
    let e = quantum(n, d);
    let p = d * pow2(e);
    lemma_pow2_pos(e);
    assert(p > 0) by (nonlinear_arith)
        requires
            d > 0,
            pow2(e) > 0,
            p == d * pow2(e),
    ;
    lemma2_to64();
    lemma2_to64_rest();
    lemma_quantum_bounds(n, d);
    lemma_pow2_adds(53, e);
    lemma_pow2_adds(52, e);
    assert(d * pow2(53 + e) == pow2(53) * p) by (nonlinear_arith)
        requires
            pow2(53 + e) == pow2(53) * pow2(e),
            p == d * pow2(e),
    ;
    assert(d * pow2((52 + e) as nat) == pow2(52) * p) by (nonlinear_arith)
        requires
            pow2((52 + e) as nat) == pow2(52) * pow2(e),
            p == d * pow2(e),
    ;
    lemma_nearest(n, p, 2 * HIDDEN as nat);
    lemma_nearest(n, p, HIDDEN as nat);
}

/// The encoding of a significand and an exponent stands for their product.
proof fn lemma_encode(q: nat, e: nat)
    requires
        q <= 2 * HIDDEN,
        e > 0 ==> q >= HIDDEN,
        q + e * HIDDEN < INF_MAG,
    ensures
        encode(q, e) == q + e * HIDDEN,
        units(encode(q, e)) == q * pow2(e),
{
    let h = HIDDEN as nat;
    let m = q + e * h;
    lemma2_to64();
    lemma_pow2_unfold(e + 1);
    assert(m == e * h + q);
    if q < h {
    } else if q < 2 * h {
        vstd::arithmetic::div_mod::lemma_fundamental_div_mod_converse(
            m as int,
            h as int,
            e as int + 1,
            q - h,
        );
        assert(sig(m) == q);
        assert(expo(m) == e);
    } else {
        vstd::arithmetic::div_mod::lemma_fundamental_div_mod_converse(
            m as int,
            h as int,
            e as int + 2,
            0,
        );
        assert(sig(m) == h);
        assert(expo(m) == e + 1);
        assert(h * pow2(e + 1) == q * pow2(e)) by (nonlinear_arith)
            requires
                pow2(e + 1) == 2 * pow2(e),
                q == 2 * h,
        ;
    }
}

/// Rounding keeps the order.
pub proof fn lemma_round_monotone(a: nat, b: nat, d: nat)
    requires
        d > 0,
        a <= b,
    ensures
        round_ratio(a, d) <= round_ratio(b, d),
{
    let e = quantum(a, d);
    let f = quantum(b, d);
    lemma_significand(a, d);
    lemma_significand(b, d);
    lemma_quantum_bounds(a, d);
    lemma_quantum_bounds(b, d);
    let h = HIDDEN as nat;
    if e > f {
        lemma_pow2_grows(53 + f, (52 + e) as nat);
        assert(d * pow2(53 + f) <= d * pow2((52 + e) as nat)) by (nonlinear_arith)
            requires
                pow2(53 + f) <= pow2((52 + e) as nat),
        ;
        assert(false);
    }
    if e == f {
        lemma_nearest_monotone(a, b, d * pow2(e));
    } else {
        assert(e * h + h <= f * h) by (nonlinear_arith)
            requires
                e + 1 <= f,
        ;
    }
}

/// Numbers are their own rounded values.
pub proof fn lemma_round_exact(m: nat, d: nat)
    requires
        m < INF_MAG,
        d > 0,
    ensures
        round_ratio(units(m) * d, d) == m,
{
    let e = expo(m);
    let s = sig(m);
    let h = HIDDEN as nat;
    let p = d * pow2(e);
    lemma_fields(m);
    lemma2_to64();
    lemma2_to64_rest();
    lemma_pow2_pos(e);
    lemma_pow2_adds(53, e);
    lemma_pow2_adds(52, e);
    let n = units(m) * d;
    assert(n == s * p) by (nonlinear_arith)
        requires
            n == (s * pow2(e)) * d,
            p == d * pow2(e),
    ;
    assert(p > 0) by (nonlinear_arith)
        requires
            d > 0,
            pow2(e) > 0,
            p == d * pow2(e),
    ;
    assert(d * pow2(53 + e) == pow2(53) * p) by (nonlinear_arith)
        requires
            pow2(53 + e) == pow2(53) * pow2(e),
            p == d * pow2(e),
    ;
    assert(d * pow2((52 + e) as nat) == pow2(52) * p) by (nonlinear_arith)
        requires
            pow2((52 + e) as nat) == pow2(52) * pow2(e),
            p == d * pow2(e),
    ;
    assert(s * p < pow2(53) * p) by (nonlinear_arith)
        requires
            s < pow2(53),
            p > 0,
    ;
    if e > 0 {
        assert(s * p >= pow2(52) * p) by (nonlinear_arith)
            requires
                s >= pow2(52),
        ;
    }
    lemma_quantum(n, d, e);
    lemma_nearest(n, p, s);
    vstd::arithmetic::div_mod::lemma_fundamental_div_mod(m as int, h as int);
    if m >= h {
        assert(s + e * h == m) by (nonlinear_arith)
            requires
                s == m % h + h,
                e == m / h - 1,
                m == h * (m / h) + m % h,
        ;
    }
}

/// A ratio that is not above the largest number rounds to a number that is at most half a unit
/// in its last place away.
pub proof fn lemma_round_near(n: nat, d: nat)
    requires
        d > 0,
        n <= top() * d,
    ensures
        round_ratio(n, d) < INF_MAG,
        units(round_ratio(n, d)) * d <= n + half_ulp() * d,
        n <= units(round_ratio(n, d)) * d + half_ulp() * d,
{
    let e = quantum(n, d);
    let p = d * pow2(e);
    let q = nearest_even(n, p);
    let m = round_ratio(n, d);
    let h = HIDDEN as nat;
    lemma_round_monotone(n, top() * d, d);
    lemma_round_exact((INF_MAG - 1) as nat, d);
    lemma_significand(n, d);
    lemma_encode(q, e);
    lemma_nearest(n, p, 0);
    assert(units(m) * d == q * p) by (nonlinear_arith)
        requires
            units(m) == q * pow2(e),
            p == d * pow2(e),
    ;
    assert(e <= 2045) by {
        if e > 2045 {
            assert(e * h >= 2046 * h) by (nonlinear_arith)
                requires
                    e >= 2046,
            ;
            assert(false);
        }
    }
    lemma_pow2_grows(e, 2045);
    lemma_pow2_unfold(2045);
    assert(p <= 2 * (half_ulp() * d)) by (nonlinear_arith)
        requires
            p == d * pow2(e),
            pow2(e) <= 2 * half_ulp(),
    ;
}

/// The values of magnitudes grow with them.
pub proof fn lemma_units_monotone(a: nat, b: nat)
    requires
        a < INF_MAG,
        b < INF_MAG,
    ensures
        a <= b <==> units(a) <= units(b),
{
    lemma_round_exact(a, 1);
    lemma_round_exact(b, 1);
    if units(a) <= units(b) {
        lemma_round_monotone(units(a), units(b), 1);
    }
    if units(b) <= units(a) {
        lemma_round_monotone(units(b), units(a), 1);
    }
}

/// The order of finite numbers is that of their values.
pub proof fn lemma_order_value(a: F64, b: F64)
    requires
        a.finite(),
        b.finite(),
    ensures
        a <= b <==> a.value() <= b.value(),
        a < b <==> a.value() < b.value(),
{
    reveal(below);
    reveal(at_most);
    lemma_units_monotone(a.mag(), b.mag());
    lemma_units_monotone(b.mag(), a.mag());
    lemma_units_monotone(a.mag(), 0);
    lemma_units_monotone(b.mag(), 0);
    lemma_fields(0);
}

/// The opposite number has the opposite value.
pub proof fn lemma_negation_value(a: F64)
    ensures
        (-a).mag() == a.mag(),
        (-a).sign() == !a.sign(),
        a.finite() ==> (-a).value() == -a.value(),
{
    reveal(negation_of);
}

/// A difference that is not above the largest number is at most half a unit in its last place
/// away from the exact one.
pub proof fn lemma_difference_near(a: F64, b: F64)
    requires
        a.finite(),
        b.finite(),
        -top() <= a.value() - b.value() <= top(),
    ensures
        (a - b).finite(),
        a.value() - b.value() - half_ulp() <= (a - b).value(),
        (a - b).value() <= a.value() - b.value() + half_ulp(),
{
    reveal(sum_of);
    lemma_negation_value(b);
    let s = a.value() - b.value();
    lemma_fields(0);
    if s < 0 {
        lemma_round_near((-s) as nat, 1);
    } else {
        lemma_round_near(s as nat, 1);
    }
}

/// Subtraction of a number keeps the order.
pub proof fn lemma_difference_order(a: F64, b: F64, c: F64)
    requires
        a.finite(),
        b.finite(),
        c.finite(),
        a <= b,
        -top() <= a.value() - c.value() <= top(),
        -top() <= b.value() - c.value() <= top(),
    ensures
        a - c <= b - c,
{
    reveal(sum_of);
    reveal(at_most);
    lemma_order_value(a, b);
    lemma_negation_value(c);
    lemma_difference_near(a, c);
    lemma_difference_near(b, c);
    let x = a.value() - c.value();
    let y = b.value() - c.value();
    if x > 0 {
        lemma_round_monotone(x as nat, y as nat, 1);
    } else if y < 0 {
        lemma_round_monotone((-y) as nat, (-x) as nat, 1);
    }
}

/// Adding zero to a finite number keeps its value.
pub proof fn lemma_add_zero(a: F64)
    requires
        a.finite(),
    ensures
        (a + zero()).finite(),
        (zero() + a).finite(),
        (a + zero()).value() == a.value(),
        (zero() + a).value() == a.value(),
{
    reveal(sum_of);
    lemma_fields(0);
    lemma_round_exact(a.mag(), 1);
}

/// Subtracting a zero from a finite number keeps its value.
pub proof fn lemma_subtract_zero(a: F64, z: F64)
    requires
        a.finite(),
        z.zero(),
    ensures
        (a - z).finite(),
        (a - z).value() == a.value(),
{
    reveal(sum_of);
    lemma_negation_value(z);
    lemma_fields(0);
    lemma_round_exact(a.mag(), 1);
}

/// Half of a finite number lies between zero and the number.
pub proof fn lemma_half_product(a: F64)
    requires
        a.finite(),
    ensures
        (half() * a).finite(),
        (half() * a).sign() == a.sign(),
        (half() * a).mag() <= a.mag(),
{
    reveal(product_of);
    lemma2_to64();
    lemma2_to64_rest();
    lemma_pow2_adds(52, 1021);
    lemma_pow2_unfold(1074);
    lemma_pow2_pos(1074);
    let u = units(a.mag());
    let d = pow2(1074);
    assert(units(half().mag()) == pow2(1073)) by {
        assert(sig(half().mag()) == pow2(52));
        assert(expo(half().mag()) == 1021);
    }
    assert(pow2(1073) * u <= u * d) by (nonlinear_arith)
        requires
            d == 2 * pow2(1073),
            u >= 0,
    ;
    lemma_round_monotone(pow2(1073) * u, u * d, d);
    lemma_round_exact(a.mag(), d);
}

/// Twice a positive number is not below the number, and exact within half a unit in the last
/// place of the largest numbers.
pub proof fn lemma_two_product(a: F64)
    requires
        a.finite(),
        !a.sign(),
    ensures
        !(two() * a).nan(),
        !(two() * a).sign(),
        a.mag() <= (two() * a).mag(),
        (two() * a).finite() && (two() * a).value() < top() ==> 2 * a.value() <= (two()
            * a).value() + half_ulp(),
{
    reveal(product_of);
    lemma2_to64();
    lemma2_to64_rest();
    lemma_pow2_adds(52, 1023);
    lemma_pow2_unfold(1075);
    lemma_pow2_pos(1074);
    let u = units(a.mag());
    let d = pow2(1074);
    let n = pow2(1075) * u;
    assert(units(two().mag()) == pow2(1075)) by {
        assert(sig(two().mag()) == pow2(52));
        assert(expo(two().mag()) == 1023);
    }
    assert(n == (2 * u) * d) by (nonlinear_arith)
        requires
            n == pow2(1075) * u,
            pow2(1075) == 2 * d,
    ;
    assert(u * d <= (2 * u) * d) by (nonlinear_arith)
        requires
            u >= 0,
    ;
    lemma_round_monotone(u * d, n, d);
    lemma_round_exact(a.mag(), d);
    let m = round_ratio(n, d);
    if 2 * u <= top() {
        assert(n <= top() * d) by (nonlinear_arith)
            requires
                n == (2 * u) * d,
                2 * u <= top(),
        ;
        lemma_round_near(n, d);
        assert(2 * u <= units(m) + half_ulp()) by (nonlinear_arith)
            requires
                (2 * u) * d <= units(m) * d + half_ulp() * d,
                d > 0,
        ;
    } else {
        assert(top() * d <= n) by (nonlinear_arith)
            requires
                n == (2 * u) * d,
                top() <= 2 * u,
        ;
        lemma_round_monotone(top() * d, n, d);
        lemma_round_exact((INF_MAG - 1) as nat, d);
        if m < INF_MAG {
            lemma_units_monotone((INF_MAG - 1) as nat, m);
        }
    }
}

/// A ratio that is not above a number, or not below it, rounds to one that is not either.
pub proof fn lemma_round_beside(n: nat, d: nat, m: nat)
    requires
        d > 0,
        m < INF_MAG,
    ensures
        n <= units(m) * d ==> round_ratio(n, d) <= m,
        n >= units(m) * d ==> round_ratio(n, d) >= m,
{
    lemma_round_exact(m, d);
    if n <= units(m) * d {
        lemma_round_monotone(n, units(m) * d, d);
    }
    if n >= units(m) * d {
        lemma_round_monotone(units(m) * d, n, d);
    }
}

/// The next smaller magnitude.
pub proof fn lemma_predecessor(m: nat)
    requires
        1 < m < INF_MAG,
    ensures
        units(m) <= 2 * units((m - 1) as nat),
        m <= HIDDEN ==> units(m) == units((m - 1) as nat) + 1,
        m > HIDDEN ==> 127 * units(m) <= 128 * units((m - 1) as nat),
{
    let h = HIDDEN as nat;
    let k = (m - 1) as nat;
    lemma2_to64();
    if m <= h {
        assert(sig(m) == m && expo(m) == 0);
        assert(sig(k) == k && expo(k) == 0);
        assert(units(m) == m && units(k) == k);
    } else {
        let q = m / h;
        let r = m % h;
        vstd::arithmetic::div_mod::lemma_fundamental_div_mod(m as int, h as int);
        let e = expo(m);
        let p = pow2(e);
        lemma_pow2_pos(e);
        if r > 0 {
            vstd::arithmetic::div_mod::lemma_fundamental_div_mod_converse(
                k as int,
                h as int,
                q as int,
                r - 1,
            );
            assert(sig(k) == sig(m) - 1 && expo(k) == e);
            let s = sig(m);
            assert(127 * (s * p) <= 128 * ((s - 1) * p)) by (nonlinear_arith)
                requires
                    s >= 128,
                    p > 0,
            ;
            assert(s * p <= 2 * ((s - 1) * p)) by (nonlinear_arith)
                requires
                    s >= 2,
                    p > 0,
            ;
        } else {
            assert(h * q == h * (q - 1) + h) by (nonlinear_arith);
            vstd::arithmetic::div_mod::lemma_fundamental_div_mod_converse(
                k as int,
                h as int,
                q - 1,
                h - 1,
            );
            assert(q >= 2) by (nonlinear_arith)
                requires
                    h * q > h,
                    h > 0,
            ;
            lemma_pow2_unfold(e);
            let f = (e - 1) as nat;
            lemma_pow2_pos(f);
            assert(sig(k) == 2 * h - 1 && expo(k) == f);
            let g = pow2(f);
            assert(127 * (h * p) <= 128 * ((2 * h - 1) * g)) by (nonlinear_arith)
                requires
                    h >= 128,
                    g > 0,
                    p == 2 * g,
            ;
            assert(h * p <= 2 * ((2 * h - 1) * g)) by (nonlinear_arith)
                requires
                    h >= 2,
                    g > 0,
                    p == 2 * g,
            ;
        }
    }
}

/// The quantum of a square root bounds it.
proof fn lemma_root_quantum_bounds(n: nat, d: nat)
    requires
        d > 0,
    ensures
        ({
            let e = root_quantum(n, d);
            &&& n < d * (pow2(53 + e) * pow2(53 + e))
            &&& e > 0 ==> n >= d * (pow2((52 + e) as nat) * pow2((52 + e) as nat))
        }),
    decreases n - d,
{
    let c = PRECISION_SCALE as nat;
    lemma2_to64_rest();
    assert(pow2(53) == c);
    assert(d * c * c == d * (c * c)) by (nonlinear_arith);
    if n >= d * c * c {
        assert(d * (c * c) >= 4 * d) by (nonlinear_arith)
            requires
                c >= 2,
        ;
        lemma_root_quantum_bounds(n, 4 * d);
        let f = root_quantum(n, 4 * d);
        lemma_pow2_unfold(54 + f);
        let a = pow2(54 + f);
        let b = pow2(53 + f);
        assert(d * (a * a) == (4 * d) * (b * b)) by (nonlinear_arith)
            requires
                a == 2 * b,
        ;
        if f > 0 {
            lemma_pow2_unfold(53 + f);
            let v = pow2((52 + f) as nat);
            assert(d * (b * b) == (4 * d) * (v * v)) by (nonlinear_arith)
                requires
                    b == 2 * v,
            ;
        }
    }
}

/// A square root has an integral part.
proof fn lemma_root_exists(n: nat, d: nat, bound: nat)
    requires
        n < bound * bound * d,
    ensures
        exists|q: nat| is_root(n, d, q) && q < bound,
    decreases bound,
{
    if bound == 0 {
        assert(bound * bound * d == 0) by (nonlinear_arith)
            requires
                bound == 0,
        ;
    } else {
        let q = (bound - 1) as nat;
        if q * q * d <= n {
            assert(is_root(n, d, q));
        } else {
            lemma_root_exists(n, d, q);
        }
    }
}

/// A square root that is not above a number, or not below it, rounds to one that is not either.
pub proof fn lemma_root_beside(n: nat, m: nat)
    requires
        m < INF_MAG,
    ensures
        n <= units(m) * units(m) ==> round_root(n) <= m,
        n >= units(m) * units(m) ==> round_root(n) >= m,
{
    let h = HIDDEN as nat;
    let s = sig(m);
    let x = expo(m);
    lemma_fields(m);
    lemma2_to64();
    lemma2_to64_rest();
    assert(m == s + x * h || (x == 0 && m == s)) by {
        vstd::arithmetic::div_mod::lemma_fundamental_div_mod(m as int, h as int);
        if m >= h {
            assert(s + x * h == m) by (nonlinear_arith)
                requires
                    s == m % h + h,
                    x == m / h - 1,
                    m == h * (m / h) + m % h,
            ;
        }
    }
    let e = root_quantum(n, 1);
    lemma_root_quantum_bounds(n, 1);
    let w = pow2(e);
    let d = w * w;
    lemma_pow2_pos(e);
    lemma_pow2_pos(x);
    lemma_pow2_adds(53, e);
    lemma_pow2_adds(52, e);
    let b = pow2(53);
    assert(b == 2 * h);
    assert(pow2(52) == h);
    assert(d > 0) by (nonlinear_arith)
        requires
            d == w * w,
            w > 0,
    ;
    assert((b * w) * (b * w) == b * b * d) by (nonlinear_arith)
        requires
            d == w * w,
    ;
    assert((h * w) * (h * w) == h * h * d) by (nonlinear_arith)
        requires
            d == w * w,
    ;
    lemma_root_exists(n, d, b);
    let q = choose|q: nat| is_root(n, d, q);
    assert(q < b) by {
        if q >= b {
            assert(q * q * d >= b * b * d) by (nonlinear_arith)
                requires
                    q >= b,
            ;
        }
    }
    let mid = (2 * q + 1) * (2 * q + 1) * d;
    let r = if 4 * n > mid || (4 * n == mid && q % 2 == 1) {
        q + 1
    } else {
        q
    };
    assert(round_root(n) == encode(r, e));
    if e > 0 {
        assert(q >= h) by {
            if q < h {
                assert((q + 1) * (q + 1) * d <= h * h * d) by (nonlinear_arith)
                    requires
                        q + 1 <= h,
                ;
            }
        }
    }
    let v = pow2(x);
    let square = units(m) * units(m);
    assert(square == s * s * (v * v)) by (nonlinear_arith)
        requires
            square == (s * v) * (s * v),
    ;
    if e == x {
        if n <= square {
            assert(q <= s) by {
                if q > s {
                    assert(q * q * d > s * s * d) by (nonlinear_arith)
                        requires
                            q > s,
                            d > 0,
                    ;
                }
            }
            if q == s {
                assert(4 * (q * q * d) < mid) by (nonlinear_arith)
                    requires
                        mid == (2 * q + 1) * (2 * q + 1) * d,
                        d > 0,
                ;
            }
            assert(r <= s);
        }
        if n >= square {
            assert(q >= s) by {
                if q < s {
                    assert((q + 1) * (q + 1) * d <= s * s * d) by (nonlinear_arith)
                        requires
                            q + 1 <= s,
                    ;
                }
            }
        }
    } else if e < x {
        assert(r + e * h <= m) by {
            assert(e * h + h <= x * h) by (nonlinear_arith)
                requires
                    e + 1 <= x,
            ;
        }
        lemma_pow2_unfold(e + 1);
        lemma_pow2_grows(e + 1, x);
        assert(n < square) by {
            assert(h * h * (v * v) >= b * b * d) by (nonlinear_arith)
                requires
                    b == 2 * h,
                    v >= 2 * w,
                    d == w * w,
            ;
            assert(s * s * (v * v) >= h * h * (v * v)) by (nonlinear_arith)
                requires
                    s >= h,
            ;
        }
    } else {
        assert(x * h + h <= e * h) by (nonlinear_arith)
            requires
                x + 1 <= e,
        ;
        assert(r + e * h >= m);
        lemma_pow2_unfold(x + 1);
        lemma_pow2_grows(x + 1, e);
        assert(n > square) by {
            assert(h * h * d >= b * b * (v * v)) by (nonlinear_arith)
                requires
                    b == 2 * h,
                    w >= 2 * v,
                    d == w * w,
            ;
            assert(s * s * (v * v) < b * b * (v * v)) by (nonlinear_arith)
                requires
                    s < b,
                    v > 0,
            ;
        }
    }
}

/// Adding or subtracting a zero keeps a finite number.
pub proof fn lemma_zero_keeps(a: F64, z: F64)
    requires
        a.finite(),
        z.zero(),
    ensures
        same(a + z, a),
        same(z + a, a),
        same(a - z, a),
        (a + z).finite(),
        (a - z).finite(),
{
    reveal(sum_of);
    lemma_fields(0);
    lemma_round_exact(a.mag(), 1);
    lemma_subtract_zero(a, z);
    lemma_order_value(a + z, a);
    lemma_order_value(a, a + z);
    lemma_order_value(z + a, a);
    lemma_order_value(a, z + a);
    lemma_order_value(a - z, a);
    lemma_order_value(a, a - z);
}

/// A rounded ratio is above the exact one by one part in two to the power 30 and one smallest unit
/// at most.
pub proof fn lemma_round_relative(n: nat, d: nat)
    requires
        d > 0,
        round_ratio(n, d) < INF_MAG,
    ensures
        0x4000_0000 * (units(round_ratio(n, d)) * d) <= 0x4000_0001 * n + 0x4000_0000 * d,
{
    let e = quantum(n, d);
    let p = d * pow2(e);
    let q = nearest_even(n, p);
    let m = round_ratio(n, d);
    lemma_significand(n, d);
    lemma_encode(q, e);
    lemma_nearest(n, p, 0);
    lemma_quantum_bounds(n, d);
    lemma2_to64();
    lemma2_to64_rest();
    lemma_pow2_adds(52, e);
    assert(units(m) * d == q * p) by (nonlinear_arith)
        requires
            units(m) == q * pow2(e),
            p == d * pow2(e),
    ;
    if e == 0 {
        assert(p == d) by (nonlinear_arith)
            requires
                p == d * pow2(e),
                pow2(e) == 1,
        ;
    } else {
        assert(d * pow2((52 + e) as nat) == pow2(52) * p) by (nonlinear_arith)
            requires
                pow2((52 + e) as nat) == pow2(52) * pow2(e),
                p == d * pow2(e),
        ;
    }
}

/// A multiple of a power of two that is not too large is its own rounded value.
pub proof fn lemma_round_multiple(k: nat, t: nat)
    requires
        k < 0x20_0000_0000_0000,
        t <= 1500,
    ensures
        round_ratio(k * pow2(t), 1) < INF_MAG,
        units(round_ratio(k * pow2(t), 1)) == k * pow2(t),
{
    let n = k * pow2(t);
    let e = quantum(n, 1);
    let h = HIDDEN as nat;
    lemma2_to64();
    lemma2_to64_rest();
    lemma_quantum_bounds(n, 1);
    lemma_pow2_pos(t);
    lemma_pow2_adds(53, t);
    assert(n < pow2(53 + t)) by (nonlinear_arith)
        requires
            n == k * pow2(t),
            k < pow2(53),
            pow2(t) > 0,
            pow2(53 + t) == pow2(53) * pow2(t),
    ;
    assert(e <= t) by {
        if e > t {
            lemma_pow2_grows(53 + t, (52 + e) as nat);
        }
    }
    let j = (t - e) as nat;
    lemma_pow2_adds(j, e);
    let c = k * pow2(j);
    assert(n == c * pow2(e)) by (nonlinear_arith)
        requires
            n == k * pow2(t),
            pow2(t) == pow2(j) * pow2(e),
            c == k * pow2(j),
    ;
    lemma_significand(n, 1);
    lemma_nearest(n, pow2(e), c);
    assert(e * h <= 1500 * h) by (nonlinear_arith)
        requires
            e <= 1500,
    ;
    lemma_encode(c, e);
}

/// A sum that is not above a number, or not below it, stays so when it is rounded.
pub proof fn lemma_sum_beside(a: F64, b: F64, c: F64)
    requires
        a.finite(),
        b.finite(),
        c.finite(),
    ensures
        a.value() + b.value() <= c.value() ==> a + b <= c,
        a.value() + b.value() >= c.value() ==> c <= a + b,
{
    reveal(sum_of);
    reveal(at_most);
    let s = a.value() + b.value();
    lemma_fields(0);
    lemma_fields(c.mag());
    if s < 0 {
        lemma_round_beside((-s) as nat, 1, c.mag());
        lemma_round_beside((-s) as nat, 1, 0);
    } else if s > 0 {
        lemma_round_beside(s as nat, 1, c.mag());
        lemma_round_beside(s as nat, 1, 0);
    }
}

/// The multiple that rounding picks is the nearest one.
proof fn lemma_nearest_multiple(n: nat, p: nat, c: nat)
    requires
        p > 0,
    ensures
        ({
            let r = nearest_even(n, p) * p;
            let y = c * p;
            let gap = if y >= n {
                y - n
            } else {
                n - y
            };
            -gap <= r - n <= gap
        }),
{
    let q = nearest_even(n, p);
    lemma_nearest(n, p, 0);
    if c > q {
        assert(c * p >= q * p + p) by (nonlinear_arith)
            requires
                c >= q + 1,
        ;
    } else if c < q {
        assert(c * p + p <= q * p) by (nonlinear_arith)
            requires
                c + 1 <= q,
        ;
    }
}

/// No number is nearer to an integral count of smallest units than its rounded value.
pub proof fn lemma_round_nearest(n: nat, m: nat)
    requires
        m < INF_MAG,
        round_ratio(n, 1) < INF_MAG,
    ensures
        ({
            let r = units(round_ratio(n, 1));
            let y = units(m);
            let gap = if y >= n {
                y - n
            } else {
                n - y
            };
            -gap <= r - n <= gap
        }),
{
    let e = quantum(n, 1);
    let p = pow2(e);
    let q = nearest_even(n, p);
    let h = HIDDEN as nat;
    lemma_significand(n, 1);
    lemma_encode(q, e);
    lemma_quantum_bounds(n, 1);
    lemma_fields(m);
    lemma2_to64();
    lemma2_to64_rest();
    lemma_pow2_pos(e);
    lemma_pow2_adds(52, e);
    let s = sig(m);
    let x = expo(m);
    if x >= e {
        let j = (x - e) as nat;
        lemma_pow2_adds(j, e);
        let c = s * pow2(j);
        assert(units(m) == c * p) by (nonlinear_arith)
            requires
                units(m) == s * pow2(x),
                pow2(x) == pow2(j) * p,
                c == s * pow2(j),
        ;
        lemma_nearest_multiple(n, p, c);
    } else {
        lemma_pow2_unfold(x + 1);
        lemma_pow2_grows(x + 1, e);
        assert(units(m) <= h * p) by (nonlinear_arith)
            requires
                units(m) == s * pow2(x),
                s < 2 * h,
                2 * pow2(x) <= p,
        ;
        lemma_nearest_multiple(n, p, h);
    }
}

/// Adding a number moves a number by twice that number at most, however the sum is rounded.
pub proof fn lemma_sum_moves(a: F64, b: F64)
    requires
        a.finite(),
        b.finite(),
        (a + b).finite(),
    ensures
        -2 * units(b.mag()) <= (a + b).value() - a.value() <= 2 * units(b.mag()),
{
    reveal(sum_of);
    lemma_fields(0);
    lemma2_to64();
    let s = a.value() + b.value();
    if s > 0 {
        lemma_round_nearest(s as nat, a.mag());
        lemma_round_nearest(s as nat, 0);
    } else if s < 0 {
        lemma_round_nearest((-s) as nat, a.mag());
        lemma_round_nearest((-s) as nat, 0);
    }
}

/// A rounded ratio is below the exact one by one part in two to the power 30 and one smallest unit
/// at most.
pub proof fn lemma_round_shortfall(n: nat, d: nat)
    requires
        d > 0,
        round_ratio(n, d) < INF_MAG,
    ensures
        0x3fff_ffff * n <= 0x4000_0000 * (units(round_ratio(n, d)) * d) + 0x4000_0000 * d,
{
    let e = quantum(n, d);
    let p = d * pow2(e);
    let q = nearest_even(n, p);
    let m = round_ratio(n, d);
    lemma_significand(n, d);
    lemma_encode(q, e);
    lemma_nearest(n, p, 0);
    lemma_quantum_bounds(n, d);
    lemma2_to64();
    lemma2_to64_rest();
    lemma_pow2_adds(52, e);
    assert(units(m) * d == q * p) by (nonlinear_arith)
        requires
            units(m) == q * pow2(e),
            p == d * pow2(e),
    ;
    if e == 0 {
        assert(p == d) by (nonlinear_arith)
            requires
                p == d * pow2(e),
                pow2(e) == 1,
        ;
    } else {
        assert(d * pow2((52 + e) as nat) == pow2(52) * p) by (nonlinear_arith)
            requires
                pow2((52 + e) as nat) == pow2(52) * pow2(e),
                p == d * pow2(e),
        ;
    }
}

/// The square of a rounded square root is below the exact square by one part in a thousand at
/// most, if that is not small.
pub proof fn lemma_root_shortfall(n: nat)
    requires
        n >= 0x1000_0000_0000_0000,
        round_root(n) < INF_MAG,
    ensures
        1000 * n <= 1001 * (units(round_root(n)) * units(round_root(n))),
{
    let h = HIDDEN as nat;
    let e = root_quantum(n, 1);
    let w = pow2(e);
    let d = w * w;
    let b = pow2(53);
    lemma2_to64();
    lemma2_to64_rest();
    lemma_root_quantum_bounds(n, 1);
    lemma_pow2_pos(e);
    lemma_pow2_adds(53, e);
    lemma_pow2_adds(52, e);
    assert((b * w) * (b * w) == b * b * d) by (nonlinear_arith)
        requires
            d == w * w,
    ;
    assert((h * w) * (h * w) == h * h * d) by (nonlinear_arith)
        requires
            d == w * w,
    ;
    lemma_root_exists(n, d, b);
    let q = choose|q: nat| is_root(n, d, q);
    assert(is_root(n, d, q));
    assert(d > 0) by (nonlinear_arith)
        requires
            d == w * w,
            w > 0,
    ;
    assert(q < b) by {
        if q >= b {
            assert(q * q * d >= b * b * d) by (nonlinear_arith)
                requires
                    q >= b,
            ;
        }
    }
    let mid = (2 * q + 1) * (2 * q + 1) * d;
    let r = if 4 * n > mid || (4 * n == mid && q % 2 == 1) {
        q + 1
    } else {
        q
    };
    assert(round_root(n) == encode(r, e));
    if e > 0 {
        assert(q >= h) by {
            if q < h {
                assert((q + 1) * (q + 1) * d <= h * h * d) by (nonlinear_arith)
                    requires
                        q + 1 <= h,
                ;
            }
        }
    } else {
        assert(d == 1) by (nonlinear_arith)
            requires
                d == w * w,
                w == 1,
        ;
        assert(q >= 10000) by {
            if q < 10000 {
                assert((q + 1) * (q + 1) * d <= 100_000_000) by (nonlinear_arith)
                    requires
                        q + 1 <= 10000,
                        d == 1,
                ;
            }
        }
    }
    lemma_encode(r, e);
    let y = r * w;
    assert((q + 1) * (q + 1) <= (r + 1) * (r + 1)) by (nonlinear_arith)
        requires
            q <= r,
    ;
    assert(1000 * ((r + 1) * (r + 1)) <= 1001 * (r * r)) by (nonlinear_arith)
        requires
            r >= 10000,
    ;
    assert(1000 * ((q + 1) * (q + 1) * d) <= 1001 * (y * y)) by (nonlinear_arith)
        requires
            1000 * ((q + 1) * (q + 1)) <= 1001 * (r * r),
            y == r * w,
            d == w * w,
    ;
}

/// The magnitude of twice the size.
pub open spec fn double(m: nat) -> nat {
    if m < HIDDEN {
        2 * m
    } else {
        m + HIDDEN as nat
    }
}

/// Twice a magnitude has twice the size.
pub proof fn lemma_double(m: nat)
    ensures
        units(double(m)) == 2 * units(m),
{
    let h = HIDDEN as nat;
    lemma2_to64();
    vstd::arithmetic::div_mod::lemma_fundamental_div_mod(m as int, h as int);
    if m < h {
        let k = 2 * m;
        assert(sig(m) == m && expo(m) == 0);
        if k >= h {
            vstd::arithmetic::div_mod::lemma_fundamental_div_mod_converse(
                k as int,
                h as int,
                1,
                k - h,
            );
        }
        assert(sig(k) == k && expo(k) == 0);
        assert(units(k) == k && units(m) == m);
    } else {
        let k = m + h;
        let q = m / h;
        let r = m % h;
        assert(h * (q + 1) == h * q + h) by (nonlinear_arith);
        vstd::arithmetic::div_mod::lemma_fundamental_div_mod_converse(
            k as int,
            h as int,
            q as int + 1,
            r as int,
        );
        assert(q >= 1) by (nonlinear_arith)
            requires
                m == h * q + r,
                m >= h,
                r < h,
                h > 0,
        ;
        let e = expo(m);
        lemma_pow2_unfold(e + 1);
        assert(sig(k) == sig(m) && expo(k) == e + 1);
        let s = sig(m);
        assert(s * pow2(e + 1) == 2 * (s * pow2(e))) by (nonlinear_arith)
            requires
                pow2(e + 1) == 2 * pow2(e),
        ;
    }
}

/// The product with two is exact unless it overflows.
pub proof fn lemma_two_exact(a: F64)
    requires
        a.finite(),
        (two() * a).finite(),
    ensures
        (two() * a).value() == 2 * a.value(),
{
    reveal(product_of);
    lemma2_to64();
    lemma2_to64_rest();
    lemma_pow2_adds(52, 1023);
    lemma_pow2_unfold(1075);
    lemma_pow2_pos(1074);
    let u = units(a.mag());
    let d = pow2(1074);
    let n = pow2(1075) * u;
    assert(units(two().mag()) == pow2(1075)) by {
        assert(sig(two().mag()) == pow2(52));
        assert(expo(two().mag()) == 1023);
    }
    assert(n == (2 * u) * d) by (nonlinear_arith)
        requires
            n == pow2(1075) * u,
            pow2(1075) == 2 * d,
    ;
    let m = double(a.mag());
    lemma_double(a.mag());
    if m < INF_MAG {
        lemma_round_exact(m, d);
    } else {
        let k = (INF_MAG - HIDDEN) as nat;
        lemma_double(k);
        lemma_units_monotone(k, a.mag());
        assert(n >= units(INF_MAG as nat) * d) by (nonlinear_arith)
            requires
                n == (2 * u) * d,
                2 * u >= units(INF_MAG as nat),
        ;
        lemma_overflow(n, d);
    }
}

/// A ratio that is not below the size of infinity overflows.
proof fn lemma_overflow(n: nat, d: nat)
    requires
        d > 0,
        n >= units(INF_MAG as nat) * d,
    ensures
        round_ratio(n, d) >= INF_MAG,
{
    let e = quantum(n, d);
    let h = HIDDEN as nat;
    let p = d * pow2(e);
    lemma_significand(n, d);
    lemma_quantum_bounds(n, d);
    lemma2_to64();
    lemma2_to64_rest();
    assert(sig(INF_MAG as nat) == pow2(52) && expo(INF_MAG as nat) == 2046);
    lemma_pow2_adds(52, 2046);
    if e < 2046 {
        lemma_pow2_grows(53 + e, 2098);
        assert(d * pow2(53 + e) <= pow2(2098) * d) by (nonlinear_arith)
            requires
                pow2(53 + e) <= pow2(2098),
        ;
        assert(false);
    }
    assert(e * h >= 2046 * h) by (nonlinear_arith)
        requires
            e >= 2046,
    ;
}

/// The product with a half is exact up to half a smallest unit.
pub proof fn lemma_half_near(a: F64)
    requires
        a.finite(),
    ensures
        (half() * a).finite(),
        -1 <= 2 * (half() * a).value() - a.value() <= 1,
{
    lemma_half_product(a);
    reveal(product_of);
    lemma2_to64();
    lemma2_to64_rest();
    lemma_pow2_adds(52, 1021);
    lemma_pow2_unfold(1074);
    lemma_pow2_pos(1074);
    lemma_pow2_pos(1073);
    let h = HIDDEN as nat;
    let u = units(a.mag());
    let d = pow2(1074);
    let g = pow2(1073);
    let n = g * u;
    assert(units(half().mag()) == g) by {
        assert(sig(half().mag()) == pow2(52));
        assert(expo(half().mag()) == 1021);
    }
    let m = a.mag();
    lemma_fields(m);
    if m >= 2 * h {
        let k = (m - h) as nat;
        lemma_double(k);
        let w = units(k);
        assert(n == w * d) by (nonlinear_arith)
            requires
                n == g * u,
                u == 2 * w,
                d == 2 * g,
        ;
        lemma_round_exact(k, d);
    } else {
        assert(u < 2 * h) by {
            if m >= h {
                vstd::arithmetic::div_mod::lemma_fundamental_div_mod_converse(
                    m as int,
                    h as int,
                    1,
                    m - h,
                );
            }
            assert(sig(m) == m && expo(m) == 0);
            assert(m * pow2(0) == m) by (nonlinear_arith)
                requires
                    pow2(0) == 1,
            ;
        }
        assert(n < d * (PRECISION_SCALE as nat)) by (nonlinear_arith)
            requires
                n == g * u,
                d == 2 * g,
                u < PRECISION_SCALE,
                g > 0,
        ;
        assert(quantum(n, d) == 0);
        let q = nearest_even(n, d);
        assert(d * pow2(0) == d) by (nonlinear_arith)
            requires
                pow2(0) == 1,
        ;
        lemma_significand(n, d);
        lemma_encode(q, 0);
        assert(units(encode(q, 0)) == q) by (nonlinear_arith)
            requires
                units(encode(q, 0)) == q * pow2(0),
                pow2(0) == 1,
        ;
        lemma_nearest(n, d, 0);
        assert(-1 <= 2 * q - u <= 1) by (nonlinear_arith)
            requires
                q * d <= n + d / 2,
                n <= q * d + d / 2,
                n == g * u,
                d == 2 * g,
                g > 0,
        ;
    }
}

/// A rounded ratio is exact up to one part in two to the power 53 and half a smallest unit; an
/// integral one up to one part in two to the power 52.
pub proof fn lemma_round_sharp(n: nat, d: nat)
    requires
        d > 0,
        round_ratio(n, d) < INF_MAG,
    ensures
        ({
            let r = units(round_ratio(n, d)) * d;
            let h = 0x10_0000_0000_0000int;
            &&& 2 * h * (r - n) <= n + h * d
            &&& 2 * h * (n - r) <= n + h * d
            &&& d == 1 ==> h * (r - n) <= n && h * (n - r) <= n
        }),
{
    let e = quantum(n, d);
    let p = d * pow2(e);
    let q = nearest_even(n, p);
    let m = round_ratio(n, d);
    lemma_significand(n, d);
    lemma_encode(q, e);
    lemma_nearest(n, p, 0);
    lemma_quantum_bounds(n, d);
    lemma2_to64();
    lemma2_to64_rest();
    lemma_pow2_adds(52, e);
    assert(units(m) * d == q * p) by (nonlinear_arith)
        requires
            units(m) == q * pow2(e),
            p == d * pow2(e),
    ;
    if e == 0 {
        assert(p == d) by (nonlinear_arith)
            requires
                p == d * pow2(e),
                pow2(e) == 1,
        ;
    } else {
        assert(d * pow2((52 + e) as nat) == pow2(52) * p) by (nonlinear_arith)
            requires
                pow2((52 + e) as nat) == pow2(52) * pow2(e),
                p == d * pow2(e),
        ;
    }
}

/// The square of a rounded square root of a positive number is exact up to one part in two to the
/// power 50.
pub proof fn lemma_root_sharp(m: nat)
    requires
        0 < m < INF_MAG,
    ensures
        ({
            let n = units(m) * pow2(1074);
            let y = units(round_root(n));
            let c = 0x4_0000_0000_0000int;
            &&& round_root(n) < INF_MAG
            &&& y > 0
            &&& c * (y * y - n) <= n
            &&& c * (n - y * y) <= n
        }),
{
    let n = units(m) * pow2(1074);
    let h = HIDDEN as nat;
    let e = root_quantum(n, 1);
    let w = pow2(e);
    let d = w * w;
    let b = pow2(53);
    lemma2_to64();
    lemma2_to64_rest();
    lemma_pow2_pos(1074);
    lemma_pow2_strictly_increases(1074, 2045);
    lemma_pow2_strictly_increases(104, 1074);
    lemma_pow2_adds(52, 52);
    lemma_fields(m);
    lemma_fields((INF_MAG - 1) as nat);
    assert(expo((INF_MAG - 1) as nat) == 2045);
    let sm = sig((INF_MAG - 1) as nat);
    assert(sm * pow2(2045) >= pow2(2045)) by (nonlinear_arith)
        requires
            sm >= 1,
    ;
    lemma_units_monotone(m, (INF_MAG - 1) as nat);
    lemma_units_monotone(m, 0);
    lemma_fields(0);
    let um = units(m);
    assert(um >= 1);
    assert(n <= top() * top()) by (nonlinear_arith)
        requires
            n == um * pow2(1074),
            um <= top(),
            pow2(1074) <= top(),
    ;
    assert(n >= pow2(1074)) by (nonlinear_arith)
        requires
            n == um * pow2(1074),
            um >= 1,
    ;
    lemma_root_beside(n, (INF_MAG - 1) as nat);
    lemma_root_quantum_bounds(n, 1);
    lemma_pow2_pos(e);
    lemma_pow2_adds(53, e);
    lemma_pow2_adds(52, e);
    assert((b * w) * (b * w) == b * b * d) by (nonlinear_arith)
        requires
            d == w * w,
    ;
    assert((h * w) * (h * w) == h * h * d) by (nonlinear_arith)
        requires
            d == w * w,
    ;
    lemma_root_exists(n, d, b);
    let q = choose|q: nat| is_root(n, d, q);
    assert(is_root(n, d, q));
    assert(d > 0) by (nonlinear_arith)
        requires
            d == w * w,
            w > 0,
    ;
    assert(q < b) by {
        if q >= b {
            assert(q * q * d >= b * b * d) by (nonlinear_arith)
                requires
                    q >= b,
            ;
        }
    }
    let mid = (2 * q + 1) * (2 * q + 1) * d;
    let r = if 4 * n > mid || (4 * n == mid && q % 2 == 1) {
        q + 1
    } else {
        q
    };
    assert(round_root(n) == encode(r, e));
    assert(q >= h) by {
        if q < h {
            assert((q + 1) * (q + 1) * d <= h * h * d) by (nonlinear_arith)
                requires
                    q + 1 <= h,
            ;
            if e == 0 {
                assert(d == 1) by (nonlinear_arith)
                    requires
                        d == w * w,
                        w == 1,
                ;
                assert(h * h * d == pow2(104)) by (nonlinear_arith)
                    requires
                        d == 1,
                        h == pow2(52),
                        pow2(104) == pow2(52) * pow2(52),
                ;
            }
        }
    }
    lemma_encode(r, e);
    let y = r * w;
    let c = 0x4_0000_0000_0000nat;
    assert(y * y == r * r * d) by (nonlinear_arith)
        requires
            y == r * w,
            d == w * w,
    ;
    assert(y > 0) by (nonlinear_arith)
        requires
            y == r * w,
            r > 0,
            w > 0,
    ;
    assert(r * r * d <= (q + 1) * (q + 1) * d) by (nonlinear_arith)
        requires
            r <= q + 1,
    ;
    assert(q * q * d <= r * r * d) by (nonlinear_arith)
        requires
            q <= r,
    ;
    assert((q + 1) * (q + 1) * d == q * q * d + (2 * q + 1) * d) by (nonlinear_arith);
    assert(c * ((2 * q + 1) * d) <= q * q * d) by (nonlinear_arith)
        requires
            q >= 4 * c,
            c > 1,
    ;
}

/// A ratio below half a smallest unit rounds to zero.
pub proof fn lemma_round_zero_below(n: nat, d: nat)
    requires
        d > 0,
        2 * n < d,
    ensures
        round_ratio(n, d) == 0,
{
    lemma2_to64();
    assert(d * pow2(0) == d) by (nonlinear_arith)
        requires
            pow2(0) == 1,
    ;
    assert(n < d * (PRECISION_SCALE as nat)) by (nonlinear_arith)
        requires
            2 * n < d,
            PRECISION_SCALE >= 1,
    ;
    assert(quantum(n, d) == 0);
    vstd::arithmetic::div_mod::lemma_basic_div(n as int, d as int);
    vstd::arithmetic::div_mod::lemma_small_mod(n, d);
    assert(nearest_even(n, d) == 0);
}

} // verus!
