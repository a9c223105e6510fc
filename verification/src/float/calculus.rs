//! A calculus of rounding errors: how far a computed number can be from the exact result, given
//! how far the operands are from theirs.
use vstd::prelude::*;

use crate::float::arith::lemma_fields;
use crate::float::arith::negation_of;
use crate::float::arith::quotient_of;
use crate::float::convert::unity;
use crate::float::error::lemma_product_error;
use crate::float::error::lemma_quotient_error;
use crate::float::error::lemma_size_product;
use crate::float::error::lemma_sum_error;
use crate::float::error::size;
use crate::float::error::SHARP;
use crate::float::near::lemma_negation_value;
use crate::float::F64;

verus! {

/// Two to the power 48.
pub const FINE: u64 = 0x1_0000_0000_0000;

/// The largest number of roundings that are counted.
pub const MANY: u64 = 0x10_0000;

/// The finite number `x`, times `s`, is the integer `n` up to `c` parts in two to the power 48 of
/// `m`, which is not below the size of `n`, nor small beside `s`.
pub open spec fn near(x: F64, s: int, n: int, m: int, c: int) -> bool {
    &&& x.finite()
    &&& s > 0
    &&& 2 * SHARP * s <= m
    &&& size(n) <= m
    &&& 0 <= c <= MANY
    &&& FINE * size(x.value() * s - n) <= c * m
}

/// A number is itself.
pub proof fn lemma_near_self(x: F64, m: int)
    requires
        x.finite(),
        2 * SHARP <= m,
        size(x.value()) <= m,
    ensures
        near(x, 1, x.value(), m, 0),
{
    assert(x.value() * 1 == x.value()) by (nonlinear_arith);
}

/// A larger bound, with more roundings.
pub proof fn lemma_near_wider(x: F64, s: int, n: int, m: int, c: int, w: int, d: int)
    requires
        near(x, s, n, m, c),
        m <= w,
        c <= d <= MANY,
    ensures
        near(x, s, n, w, d),
{
    assert(c * m <= d * w) by (nonlinear_arith)
        requires
            0 <= c <= d,
            0 <= m <= w,
    ;
}

/// The same in other units.
pub proof fn lemma_near_scaled(x: F64, s: int, n: int, m: int, c: int, t: int)
    requires
        near(x, s, n, m, c),
        t > 0,
    ensures
        near(x, s * t, n * t, m * t, c),
{
    let e = x.value() * s - n;
    lemma_size_product(e, t);
    lemma_size_product(n, t);
    assert(e * t == x.value() * (s * t) - n * t) by (nonlinear_arith)
        requires
            e == x.value() * s - n,
    ;
    assert(FINE * (size(e) * t) <= c * (m * t)) by (nonlinear_arith)
        requires
            FINE * size(e) <= c * m,
            t > 0,
    ;
    assert(size(n) * t <= m * t) by (nonlinear_arith)
        requires
            size(n) <= m,
            t > 0,
    ;
    assert(s * t > 0 && 2 * SHARP * (s * t) <= m * t) by (nonlinear_arith)
        requires
            s > 0,
            t > 0,
            2 * SHARP * s <= m,
    ;
}

/// The size of a number that is known.
proof fn lemma_near_size(x: F64, s: int, n: int, m: int, c: int)
    requires
        near(x, s, n, m, c),
    ensures
        size(x.value() * s) <= m + m / 0x10_0000,
        0 <= m,
        0x10_0000 * size(x.value() * s - n) <= m,
{
    assert(c * m <= MANY * m) by (nonlinear_arith)
        requires
            c <= MANY,
            m >= 0,
    ;
}

/// The opposite number.
pub proof fn lemma_near_negation(x: F64, s: int, n: int, m: int, c: int)
    requires
        near(x, s, n, m, c),
    ensures
        near(-x, s, -n, m, c),
{
    lemma_negation_value(x);
    let v = x.value();
    assert((-v) * s == -(v * s)) by (nonlinear_arith);
    assert((-x).finite());
}

/// A sum.
pub proof fn lemma_near_sum(
    x: F64,
    y: F64,
    s: int,
    n: int,
    m: int,
    c: int,
    k: int,
    l: int,
    d: int,
)
    requires
        near(x, s, n, m, c),
        near(y, s, k, l, d),
        (x + y).finite(),
        c + 1 <= MANY,
        d + 1 <= MANY,
    ensures
        near(
            x + y,
            s,
            n + k,
            m + l,
            if c > d {
                c + 1
            } else {
                d + 1
            },
        ),
{
    lemma_sum_error(x, y);
    lemma_near_size(x, s, n, m, c);
    lemma_near_size(y, s, k, l, d);
    let a = x.value();
    let b = y.value();
    let e = (x + y).value() - (a + b);
    lemma_size_product(e, s);
    lemma_size_product(a + b, s);
    assert((a + b) * s == a * s + b * s) by (nonlinear_arith);
    assert((x + y).value() * s == e * s + a * s + b * s) by (nonlinear_arith)
        requires
            e == (x + y).value() - (a + b),
    ;
    let z = size(e);
    let w = size(a + b);
    assert(0x10_0000_0000_0000 * (z * s) <= w * s) by (nonlinear_arith)
        requires
            0x10_0000_0000_0000 * z <= w,
            s > 0,
    ;
    let g = if c > d {
        c + 1
    } else {
        d + 1
    };
    assert(c * m + d * l + (m + l) <= g * (m + l)) by (nonlinear_arith)
        requires
            c + 1 <= g,
            d + 1 <= g,
            m >= 0,
            l >= 0,
    ;
    let as1 = a * s - n;
    let bs1 = b * s - k;
    assert(size((x + y).value() * s - (n + k)) <= size(e * s) + size(as1) + size(bs1));
}

/// A difference.
pub proof fn lemma_near_difference(
    x: F64,
    y: F64,
    s: int,
    n: int,
    m: int,
    c: int,
    k: int,
    l: int,
    d: int,
)
    requires
        near(x, s, n, m, c),
        near(y, s, k, l, d),
        (x - y).finite(),
        c + 1 <= MANY,
        d + 1 <= MANY,
    ensures
        near(
            x - y,
            s,
            n - k,
            m + l,
            if c > d {
                c + 1
            } else {
                d + 1
            },
        ),
{
    lemma_near_negation(y, s, k, l, d);
    lemma_near_sum(x, -y, s, n, m, c, -k, l, d);
}

/// A product.
pub proof fn lemma_near_product(
    x: F64,
    y: F64,
    s: int,
    n: int,
    m: int,
    c: int,
    t: int,
    k: int,
    l: int,
    d: int,
)
    requires
        near(x, s, n, m, c),
        near(y, t, k, l, d),
        (x * y).finite(),
        c + d + 2 <= MANY,
        2 * SHARP * (s * t * unity()) <= m * l,
    ensures
        near(x * y, s * t * unity(), n * k, m * l, c + d + 2),
{
    lemma_product_error(x, y);
    lemma_near_size(x, s, n, m, c);
    lemma_near_size(y, t, k, l, d);
    let u = unity() as int;
    let a = x.value();
    let b = y.value();
    let p = (x * y).value();
    let st = s * t;
    vstd::arithmetic::power2::lemma_pow2_pos(1074);
    assert(st > 0) by (nonlinear_arith)
        requires
            s > 0,
            t > 0,
            st == s * t,
    ;
    assert(st * u > 0) by (nonlinear_arith)
        requires
            st > 0,
            u > 0,
    ;
    let e = p * u - a * b;
    lemma_size_product(e, st);
    lemma_size_product(a * b, st);
    assert(p * (st * u) == e * st + (a * s) * (b * t)) by {
        assert(p * (st * u) == (p * u) * st) by (nonlinear_arith);
        assert((p * u) * st == e * st + (a * b) * st) by (nonlinear_arith)
            requires
                e == p * u - a * b,
        ;
        assert((a * b) * (s * t) == (a * s) * (b * t)) by (nonlinear_arith);
    }
    let f = a * s - n;
    let g = b * t - k;
    let ml = m * l;
    assert((n + f) * (k + g) == n * k + n * g + f * k + f * g) by (nonlinear_arith);
    lemma_size_product(n, k);
    lemma_size_product(n, g);
    lemma_size_product(f, k);
    lemma_size_product(f, g);
    let sn = size(n);
    let sk = size(k);
    let sf = size(f);
    let sg = size(g);
    assert(sn * sk <= ml) by (nonlinear_arith)
        requires
            0 <= sn <= m,
            0 <= sk <= l,
            ml == m * l,
    ;
    assert(FINE * (sn * sg) <= d * ml) by (nonlinear_arith)
        requires
            0 <= sn <= m,
            0 <= sg,
            FINE * sg <= d * l,
            ml == m * l,
    ;
    assert(FINE * (sf * sk) <= c * ml) by (nonlinear_arith)
        requires
            0 <= sf,
            FINE * sf <= c * m,
            0 <= sk <= l,
            ml == m * l,
    ;
    assert(0x100_0000_0000 * (sf * sg) <= ml) by (nonlinear_arith)
        requires
            0 <= sf,
            0 <= sg,
            0x10_0000 * sf <= m,
            0x10_0000 * sg <= l,
            ml == m * l,
    ;
    lemma_cross(sf, sg, m, l, c, d);
    let z = size(e);
    let w = size(a * b);
    assert(2 * SHARP * (z * st) <= w * st + SHARP * (st * u)) by (nonlinear_arith)
        requires
            2 * SHARP * z <= w + SHARP * u,
            st > 0,
    ;
    assert((a * b) * st == (a * s) * (b * t)) by (nonlinear_arith)
        requires
            st == s * t,
    ;
    assert(size(n * k + n * g + f * k + f * g) <= sn * sk + sn * sg + sf * sk + sf * sg);
    assert(w * st <= 2 * ml) by {
        lemma_size_product(a * s, b * t);
        let x1 = size(a * s);
        let y1 = size(b * t);
        assert(4 * x1 <= 5 * m && 4 * y1 <= 5 * l);
        assert(16 * (x1 * y1) <= 25 * ml) by (nonlinear_arith)
            requires
                0 <= 4 * x1 <= 5 * m,
                0 <= 4 * y1 <= 5 * l,
                ml == m * l,
        ;
    }
    assert((c + d + 2) * ml == c * ml + d * ml + 2 * ml) by (nonlinear_arith);
    assert(size(p * (st * u) - n * k) <= size(e * st) + sn * sg + sf * sk + sf * sg);
    let su = st * u;
    let zs = z * st;
    let fg = sf * sg;
    assert(0x20_0000_0000_0000 * zs <= 2 * ml + 0x10_0000_0000_0000 * su);
    assert(0x20_0000_0000_0000 * su <= ml);
    assert(0x2_0000_0000_0000 * fg <= ml);
    lemma_fraction(zs, su, ml);
    assert(s * t * u == su);
    assert(0x1_0000_0000_0000 * (sn * sg) <= d * ml);
    assert(0x1_0000_0000_0000 * (sf * sk) <= c * ml);
    let err = size(p * su - n * k);
    assert(0x1_0000_0000_0000 * err <= c * ml + d * ml + 2 * ml);
}

/// A small part of a number.
proof fn lemma_fraction(z: int, w: int, m: int)
    requires
        w > 0,
        0x20_0000_0000_0000 * z <= 2 * m + 0x10_0000_0000_0000 * w,
        0x20_0000_0000_0000 * w <= m,
    ensures
        0x1_0000_0000_0000 * z <= m,
        m > 0,
{
}

/// The product of two errors.
proof fn lemma_cross(sf: int, sg: int, m: int, l: int, c: int, d: int)
    requires
        0 <= sf,
        0 <= sg,
        FINE * sf <= c * m,
        FINE * sg <= d * l,
        0 <= c <= MANY,
        0 <= d <= MANY,
        0 <= m,
        0 <= l,
    ensures
        2 * FINE * (sf * sg) <= m * l,
{
    assert((FINE * sf) * (FINE * sg) <= (c * m) * (d * l)) by (nonlinear_arith)
        requires
            0 <= FINE * sf <= c * m,
            0 <= FINE * sg <= d * l,
    ;
    let ml = m * l;
    assert(ml >= 0) by (nonlinear_arith)
        requires
            ml == m * l,
            m >= 0,
            l >= 0,
    ;
    assert((c * m) * (d * l) == (c * d) * ml) by (nonlinear_arith)
        requires
            ml == m * l,
    ;
    assert(c * d <= MANY * MANY) by (nonlinear_arith)
        requires
            0 <= c <= MANY,
            0 <= d <= MANY,
    ;
    assert((c * d) * ml <= (MANY * MANY) * ml) by (nonlinear_arith)
        requires
            c * d <= MANY * MANY,
            ml >= 0,
    ;
    let fg = sf * sg;
    assert((FINE * sf) * (FINE * sg) == (FINE * FINE) * fg) by (nonlinear_arith)
        requires
            fg == sf * sg,
    ;
    assert(MANY * MANY == 0x100_0000_0000);
    assert(FINE * FINE == 0x1_0000_0000_0000_0000_0000_0000);
    assert(0x1_0000_0000_0000_0000_0000_0000 * fg <= 0x100_0000_0000 * ml) by (nonlinear_arith)
        requires
            (FINE * FINE) * fg <= (MANY * MANY) * ml,
            MANY * MANY == 0x100_0000_0000,
            FINE * FINE == 0x1_0000_0000_0000_0000_0000_0000,
    ;
    assert(0x2_0000_0000_0000 * fg <= ml);
    assert(2 * FINE * fg == 0x2_0000_0000_0000 * fg) by (nonlinear_arith)
        requires
            FINE == 0x1_0000_0000_0000,
    ;
}

/// A quotient by a number that is known exactly.
pub proof fn lemma_near_quotient(x: F64, y: F64, s: int, n: int, m: int, c: int)
    requires
        near(x, s, n, m, c),
        y.finite(),
        y.value() > 0,
        (x / y).finite(),
        c + 2 <= MANY,
        2 * SHARP * (s * y.value()) <= m * unity(),
    ensures
        near(x / y, s * y.value(), n * unity(), m * unity(), c + 2),
{
    lemma_fields(0);
    lemma_quotient_error(x, y);
    lemma_near_size(x, s, n, m, c);
    vstd::arithmetic::power2::lemma_pow2_pos(1074);
    let u = unity() as int;
    let a = x.value();
    let b = y.value();
    let q = (x / y).value();
    let e = q * b - a * u;
    let f = a * s - n;
    lemma_size_product(e, s);
    lemma_size_product(f, u);
    lemma_size_product(n, u);
    assert(q * (s * b) - n * u == e * s + f * u) by {
        assert(q * (s * b) == (q * b) * s) by (nonlinear_arith);
        assert((q * b) * s == e * s + (a * u) * s) by (nonlinear_arith)
            requires
                e == q * b - a * u,
        ;
        assert((a * u) * s == (a * s) * u) by (nonlinear_arith);
        assert((a * s) * u == f * u + n * u) by (nonlinear_arith)
            requires
                f == a * s - n,
        ;
    }
    let z = size(e);
    let w = size(a);
    let mu = m * u;
    lemma_size_product(a, s);
    assert(2 * SHARP * (z * s) <= (w * s) * u + SHARP * (s * b)) by (nonlinear_arith)
        requires
            2 * SHARP * z <= w * u + SHARP * b,
            s > 0,
    ;
    let ws = w * s;
    assert(ws * u <= 2 * mu) by (nonlinear_arith)
        requires
            ws <= 2 * m,
            mu == m * u,
            u > 0,
    ;
    let g = size(f);
    assert(FINE * (g * u) <= c * mu) by (nonlinear_arith)
        requires
            FINE * g <= c * m,
            mu == m * u,
            u > 0,
    ;
    assert((c + 2) * mu == c * mu + 2 * mu) by (nonlinear_arith);
    assert(size(n) * u <= mu) by (nonlinear_arith)
        requires
            size(n) <= m,
            mu == m * u,
            u > 0,
    ;
    assert(s * b > 0) by (nonlinear_arith)
        requires
            s > 0,
            b > 0,
    ;
    let zs = z * s;
    let sb = s * b;
    let gu = g * u;
    assert(0x20_0000_0000_0000 * zs <= 2 * mu + 0x10_0000_0000_0000 * sb);
    assert(0x20_0000_0000_0000 * sb <= mu);
    lemma_fraction(zs, sb, mu);
    assert(0x1_0000_0000_0000 * gu <= c * mu);
    let err = size(q * sb - n * u);
    assert(err <= zs + gu);
    assert(0x1_0000_0000_0000 * err <= (c + 2) * mu);
}

/// The sign of an integer, as a factor.
pub open spec fn sign_of(a: int) -> int {
    if a < 0 {
        -1
    } else {
        1
    }
}

/// A number is its size times its sign.
pub proof fn lemma_sign(a: int)
    ensures
        a == size(a) * sign_of(a),
        size(a) == a * sign_of(a),
        size(a) * size(a) == a * a,
        sign_of(a) * sign_of(a) == 1,
{
    let s = size(a);
    if a < 0 {
        assert(s * (-1) == -s && a * (-1) == -a) by (nonlinear_arith);
        assert((-a) * (-a) == a * a) by (nonlinear_arith);
        assert((-1int) * (-1int) == 1) by (nonlinear_arith);
    } else {
        assert(s * 1 == s && a * 1 == a) by (nonlinear_arith);
        assert(1int * 1int == 1) by (nonlinear_arith);
    }
}

/// A quotient by a number of either sign that is known exactly.
pub proof fn lemma_near_ratio(x: F64, y: F64, s: int, n: int, m: int, c: int)
    requires
        near(x, s, n, m, c),
        y.finite(),
        y.value() != 0,
        (x / y).finite(),
        c + 2 <= MANY,
        2 * SHARP * (s * size(y.value())) <= m * unity(),
    ensures
        near(
            x / y,
            s * size(y.value()),
            n * unity() * sign_of(y.value()),
            m * unity(),
            c + 2,
        ),
{
    if y.value() > 0 {
        lemma_near_quotient(x, y, s, n, m, c);
        let v = n * unity();
        assert(v * 1 == v) by (nonlinear_arith);
    } else {
        lemma_negation_value(y);
        lemma_negation_value(x / y);
        let z = -y;
        assert(z.value() == size(y.value()));
        assert(x / z == -(x / y)) by {
            reveal(quotient_of);
            reveal(negation_of);
            lemma_fields(0);
        }
        lemma_near_quotient(x, z, s, n, m, c);
        let w = s * size(y.value());
        let v = n * unity();
        let q = (x / y).value();
        assert((x / z).value() == -q);
        assert(v * (-1) == -v) by (nonlinear_arith);
        assert((-q) * w == -(q * w)) by (nonlinear_arith);
    }
}

} // verus!
