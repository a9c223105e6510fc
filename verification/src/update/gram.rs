//! What the plane rotations in the update of `zmat` keep: the product of `zmat` with its
//! transpose, up to rounding.
use vstd::arithmetic::power2::lemma2_to64;
use vstd::arithmetic::power2::lemma2_to64_rest;
use vstd::arithmetic::power2::lemma_pow2_pos;
use vstd::prelude::*;

use vstd::arithmetic::power2::lemma_pow2_adds;
use vstd::arithmetic::power2::pow2;
use crate::consts::rotation_floor;
use crate::consts::zero;
use crate::entry::lemma_sum_finite;
use crate::float::arith::lemma_fields;
use crate::float::arith::magnitude_of;
use crate::float::arith::product_of;
use crate::float::convert::unity;
use crate::float::error::lemma_product_error;
use crate::float::error::lemma_size_product;
use crate::float::error::lemma_sum_error;
use crate::float::error::size;
use crate::float::expo;
use crate::float::near::lemma_negation_value;
use crate::float::near::lemma_order_value;
use crate::float::near::lemma_round_near;
use crate::float::near::lemma_units_monotone;
use crate::float::near::top;
use crate::float::order::below;
use crate::float::order::max_of;
use crate::float::sig;
use crate::float::units;
use crate::float::F64;
use crate::float::INF_MAG;
use crate::linalg::max_abs_cols;
use crate::linalg::max_abs_mat;
use crate::linalg::rotation_of;
use crate::linalg::turning::lemma_one;
use crate::linalg::turning::lemma_root_bound;
use crate::linalg::turning::lemma_rotation;
use crate::linalg::turning::unit_pair;
use crate::mat::shaped;
use crate::update::rotated;
use crate::update::rotated_once;
use crate::update::rotates;
use crate::vector::magnitudes;
use crate::vector::max_from;

verus! {

/// A size far below that of every number that matters, in smallest units.
pub const DUST: u64 = 0x100_0000_0000_0000;

/// Row `i` and column `k` of the product of the first `m` columns of `z` with their transpose.
pub open spec fn gram(z: Seq<Seq<F64>>, i: int, k: int, m: nat) -> int
    decreases m,
{
    if m == 0 {
        0
    } else {
        gram(z, i, k, (m - 1) as nat) + z[m - 1][i].value() * z[m - 1][k].value()
    }
}

/// Every entry is finite.
pub open spec fn finite_mat(z: Seq<Seq<F64>>, rows: nat) -> bool {
    forall|j: int, i: int| 0 <= j < z.len() && 0 <= i < rows ==> (#[trigger] z[j][i]).finite()
}

/// The sizes of two numbers with a little more.
spec fn reach(a: int, b: int) -> int {
    size(a) + size(b) + DUST
}

/// The numbers `a` and `b` of a row, turned by the cosine `c` and the sine `s`.
proof fn lemma_turned(a: F64, b: F64, c: F64, s: F64)
    requires
        a.finite(),
        b.finite(),
        c.finite(),
        s.finite(),
        unit_pair(c.value(), s.value()),
        16 * size(a.value()) <= top(),
        16 * size(b.value()) <= top(),
    ensures
        (a * c + b * s).finite(),
        ({
            let e = (a * c + b * s).value() * unity() - (a.value() * c.value() + b.value()
                * s.value());
            0x4_0000_0000_0000 * size(e) <= unity() * reach(a.value(), b.value())
        }),
        size(c.value()) <= 2 * unity(),
        size(s.value()) <= 2 * unity(),
{
    let u = unity() as int;
    let cv = c.value();
    let sv = s.value();
    let av = a.value();
    let bv = b.value();
    lemma_one();
    assert(cv * cv >= 0 && sv * sv >= 0) by (nonlinear_arith);
    assert(u * u > 0) by (nonlinear_arith)
        requires
            u > 0,
    ;
    lemma_root_bound(cv, u);
    lemma_root_bound(sv, u);
    lemma_part(a, c);
    lemma_part(b, s);
    let p = (a * c).value();
    let q = (b * s).value();
    lemma_sum_finite(a * c, b * s);
    lemma_sum_error(a * c, b * s);
    let w = (a * c + b * s).value();
    let d = w - (p + q);
    let t = size(av) + size(bv);
    assert(0x10_0000_0000_0000 * size(d) <= 3 * t + 2);
    lemma_size_product(d, u);
    let du = d * u;
    assert(0x10_0000_0000_0000 * size(du) <= 3 * (u * t) + 2 * u) by (nonlinear_arith)
        requires
            size(du) == size(d) * u,
            0x10_0000_0000_0000 * size(d) <= 3 * t + 2,
            u > 0,
    ;
    assert(w * u == du + p * u + q * u) by (nonlinear_arith)
        requires
            d == w - (p + q),
            du == d * u,
    ;
    assert(u * t == u * size(av) + u * size(bv)) by (nonlinear_arith)
        requires
            t == size(av) + size(bv),
    ;
    assert(u * reach(av, bv) == u * t + u * DUST) by (nonlinear_arith)
        requires
            reach(av, bv) == t + DUST,
    ;
    let ua = u * size(av);
    let ub = u * size(bv);
    assert(ua >= 0 && ub >= 0) by (nonlinear_arith)
        requires
            ua == u * size(av),
            ub == u * size(bv),
            u > 0,
            size(av) >= 0,
            size(bv) >= 0,
    ;
    let e1 = p * u - av * cv;
    let e2 = q * u - bv * sv;
    assert(0x20_0000_0000_0000 * size(e1) <= 2 * ua + 0x10_0000_0000_0000 * u);
    assert(0x20_0000_0000_0000 * size(e2) <= 2 * ub + 0x10_0000_0000_0000 * u);
    assert(u * DUST == 0x100_0000_0000_0000 * u);
    let e = w * u - (av * cv + bv * sv);
    assert(e == du + e1 + e2);
    assert(size(e) <= size(du) + size(e1) + size(e2));
}

/// The product of a number with a cosine or a sine.
proof fn lemma_part(a: F64, c: F64)
    requires
        a.finite(),
        c.finite(),
        16 * size(a.value()) <= top(),
        size(c.value()) <= 2 * unity(),
    ensures
        (a * c).finite(),
        0x20_0000_0000_0000 * size((a * c).value() * unity() - a.value() * c.value()) <= 2 * (
        unity() * size(a.value())) + 0x10_0000_0000_0000 * unity(),
        size((a * c).value()) <= 3 * size(a.value()) + 1,
{
    let u = unity() as int;
    let x = size(a.value());
    let y = size(c.value());
    lemma_one();
    lemma_size_product(a.value(), c.value());
    assert(0 <= x * y <= 2 * (u * x)) by (nonlinear_arith)
        requires
            0 <= y <= 2 * u,
            x >= 0,
    ;
    reveal(product_of);
    let n = units(a.mag()) * units(c.mag());
    assert(n == x * y);
    assert(2 * (u * x) <= top() * u) by (nonlinear_arith)
        requires
            16 * x <= top(),
            u > 0,
            x >= 0,
    ;
    lemma_round_near(n, unity());
    lemma_product_error(a, c);
    let p = (a * c).value();
    let e = p * u - a.value() * c.value();
    lemma_size_product(p, u);
    assert(size(p) * u <= x * y + size(e));
    let ux = u * x;
    assert(size(p) * u <= 3 * ux + u);
    let z = size(p);
    assert(z <= 3 * x + 1) by (nonlinear_arith)
        requires
            z * u <= 3 * ux + u,
            ux == u * x,
            u > 0,
    ;
}

/// The product of two numbers that are known up to a little.
proof fn lemma_product_near(x: int, y: int, a: int, b: int, u: int, ti: int, tk: int)
    requires
        u > 0,
        ti >= 0,
        tk >= 0,
        size(a) <= 2 * (u * ti),
        size(b) <= 2 * (u * tk),
        0x2_0000_0000_0000 * size(x * u - a) <= u * ti,
        0x2_0000_0000_0000 * size(y * u - b) <= u * tk,
    ensures
        0x2_0000_0000_0000 * size((x * y) * (u * u) - a * b) <= 5 * ((u * u) * (ti * tk)),
{
    let d = x * u - a;
    let e = y * u - b;
    let p = u * ti;
    let q = u * tk;
    assert((x * y) * (u * u) == a * b + a * e + d * b + d * e) by (nonlinear_arith)
        requires
            x * u == a + d,
            y * u == b + e,
    {
        assert((x * y) * (u * u) == (x * u) * (y * u)) by (nonlinear_arith);
        assert((a + d) * (b + e) == a * b + a * e + d * b + d * e) by (nonlinear_arith);
    }
    assert((u * u) * (ti * tk) == p * q) by (nonlinear_arith)
        requires
            p == u * ti,
            q == u * tk,
    ;
    assert(p >= 0 && q >= 0) by (nonlinear_arith)
        requires
            p == u * ti,
            q == u * tk,
            u > 0,
            ti >= 0,
            tk >= 0,
    ;
    lemma_size_product(a, e);
    lemma_size_product(d, b);
    lemma_size_product(d, e);
    lemma_scaled(size(a), size(e), p, q);
    lemma_scaled(size(b), size(d), q, p);
    assert(q * p == p * q) by (nonlinear_arith);
    assert(size(d) * size(b) == size(b) * size(d)) by (nonlinear_arith);
    let sd = size(d);
    let se = size(e);
    assert(sd <= 2 * p);
    lemma_scaled(sd, se, p, q);
    assert(0x2_0000_0000_0000 * (sd * se) <= p * q) by (nonlinear_arith)
        requires
            0 <= sd <= p,
            0 <= se,
            0x2_0000_0000_0000 * se <= q,
    ;
}

/// The product of a number and a small one.
proof fn lemma_scaled(a: int, e: int, p: int, q: int)
    requires
        0 <= a <= 2 * p,
        0 <= e,
        0x2_0000_0000_0000 * e <= q,
        p >= 0,
    ensures
        0x2_0000_0000_0000 * (a * e) <= 2 * (p * q),
{
    assert(0x2_0000_0000_0000 * (a * e) <= 2 * (p * q)) by (nonlinear_arith)
        requires
            0 <= a <= 2 * p,
            0 <= e,
            0x2_0000_0000_0000 * e <= q,
            p >= 0,
    ;
}

/// The size of a turned number.
proof fn lemma_turned_size(a: int, b: int, c: int, s: int, u: int, t: int)
    requires
        u > 0,
        size(c) <= 2 * u,
        size(s) <= 2 * u,
        size(a) + size(b) <= t,
    ensures
        size(a * c + b * s) <= 2 * (u * t),
{
    lemma_size_product(a, c);
    lemma_size_product(b, s);
    let x = size(a);
    let y = size(b);
    let p = size(c);
    let q = size(s);
    assert(x * p <= 2 * (u * x)) by (nonlinear_arith)
        requires
            p <= 2 * u,
            x >= 0,
    ;
    assert(y * q <= 2 * (u * y)) by (nonlinear_arith)
        requires
            q <= 2 * u,
            y >= 0,
    ;
    assert(u * x + u * y <= u * t) by (nonlinear_arith)
        requires
            x + y <= t,
            u > 0,
    ;
}

/// The product of two sums.
pub(crate) proof fn lemma_expand(a: int, b: int, c: int, d: int)
    ensures
        (a + b) * (c + d) == a * c + a * d + b * c + b * d,
{
    assert((a + b) * (c + d) == a * c + a * d + b * c + b * d) by (nonlinear_arith);
}

/// The factors of a product in another order.
pub(crate) proof fn lemma_exchange(a: int, b: int, c: int, d: int)
    ensures
        (a * b) * (c * d) == (a * c) * (b * d),
{
    assert((a * b) * (c * d) == (a * c) * (b * d)) by (nonlinear_arith);
}

/// Turning two rows keeps their product, up to one part in two to the power 44.
proof fn lemma_turned_product(
    a: int,
    b: int,
    v: int,
    w: int,
    x: int,
    y: int,
    f: int,
    g: int,
    c: int,
    s: int,
    ti: int,
    tk: int,
)
    requires
        unit_pair(c, s),
        size(c) <= 2 * unity(),
        size(s) <= 2 * unity(),
        size(a) + size(b) <= ti,
        size(v) + size(w) <= tk,
        0x2_0000_0000_0000 * size(x * unity() - (a * c + b * s)) <= unity() * ti,
        0x2_0000_0000_0000 * size(y * unity() - (a * (-s) + b * c)) <= unity() * ti,
        0x2_0000_0000_0000 * size(f * unity() - (v * c + w * s)) <= unity() * tk,
        0x2_0000_0000_0000 * size(g * unity() - (v * (-s) + w * c)) <= unity() * tk,
    ensures
        0x1000_0000_0000 * size((x * f + y * g) - (a * v + b * w)) <= ti * tk,
{
    let u = unity() as int;
    lemma_one();
    let p1 = a * c + b * s;
    let p2 = a * (-s) + b * c;
    let q1 = v * c + w * s;
    let q2 = v * (-s) + w * c;
    lemma_turned_size(a, b, c, s, u, ti);
    lemma_turned_size(a, b, -s, c, u, ti);
    lemma_turned_size(v, w, c, s, u, tk);
    lemma_turned_size(v, w, -s, c, u, tk);
    lemma_product_near(x, f, p1, q1, u, ti, tk);
    lemma_product_near(y, g, p2, q2, u, ti, tk);
    let uu = u * u;
    let tt = ti * tk;
    let m = a * v + b * w;
    let h = c * c + s * s;
    assert(p1 * q1 + p2 * q2 == h * m) by {
        lemma_expand(a * c, b * s, v * c, w * s);
        lemma_exchange(a, c, v, c);
        lemma_exchange(a, c, w, s);
        lemma_exchange(b, s, v, c);
        lemma_exchange(b, s, w, s);
        lemma_expand(a * (-s), b * c, v * (-s), w * c);
        lemma_exchange(a, -s, v, -s);
        lemma_exchange(a, -s, w, c);
        lemma_exchange(b, c, v, -s);
        lemma_exchange(b, c, w, c);
        assert((-s) * (-s) == s * s) by (nonlinear_arith);
        assert((a * w) * ((-s) * c) == -((a * w) * (c * s))) by (nonlinear_arith);
        assert((b * v) * (c * (-s)) == -((b * v) * (c * s))) by (nonlinear_arith);
        assert((b * v) * (s * c) == (b * v) * (c * s)) by (nonlinear_arith);
        lemma_expand(c * c, s * s, a * v, b * w);
        assert((c * c) * (a * v) == (a * v) * (c * c)) by (nonlinear_arith);
        assert((c * c) * (b * w) == (b * w) * (c * c)) by (nonlinear_arith);
        assert((s * s) * (a * v) == (a * v) * (s * s)) by (nonlinear_arith);
        assert((s * s) * (b * w) == (b * w) * (s * s)) by (nonlinear_arith);
    }
    assert(size(m) <= tt) by {
        lemma_size_product(a, v);
        lemma_size_product(b, w);
        let x1 = size(a);
        let x2 = size(b);
        let x3 = size(v);
        let x4 = size(w);
        assert(x1 * x3 + x2 * x4 <= (x1 + x2) * (x3 + x4)) by (nonlinear_arith)
            requires
                x1 >= 0,
                x2 >= 0,
                x3 >= 0,
                x4 >= 0,
        ;
        assert((x1 + x2) * (x3 + x4) <= tt) by (nonlinear_arith)
            requires
                0 <= x1 + x2 <= ti,
                0 <= x3 + x4 <= tk,
                tt == ti * tk,
        ;
    }
    let k = h - uu;
    lemma_size_product(k, m);
    assert(0x4000_0000_0000 * (size(k) * size(m)) <= uu * tt) by (nonlinear_arith)
        requires
            0x4000_0000_0000 * size(k) <= uu,
            0 <= size(k),
            0 <= size(m) <= tt,
    ;
    assert(k * m == h * m - uu * m) by (nonlinear_arith)
        requires
            k == h - uu,
    ;
    let n = x * f + y * g;
    assert(n * uu == (x * f) * uu + (y * g) * uu) by (nonlinear_arith)
        requires
            n == x * f + y * g,
    ;
    let d = n - m;
    assert(d * uu == n * uu - uu * m) by (nonlinear_arith)
        requires
            d == n - m,
    ;
    lemma_size_product(d, uu);
    assert(uu > 0) by (nonlinear_arith)
        requires
            uu == u * u,
            u > 0,
    ;
    let z = size(d);
    let e1 = (x * f) * uu - p1 * q1;
    let e2 = (y * g) * uu - p2 * q2;
    assert(d * uu == e1 + e2 + k * m);
    assert(size(d * uu) <= size(e1) + size(e2) + size(k * m));
    assert(0x1000_0000_0000 * (z * uu) <= uu * tt);
    assert(0x1000_0000_0000 * z <= tt) by (nonlinear_arith)
        requires
            0x1000_0000_0000 * (z * uu) <= uu * tt,
            uu > 0,
    ;
}

/// The product of `z` with its transpose changes with two columns by the products in these.
proof fn lemma_gram_change(
    z: Seq<Seq<F64>>,
    y: Seq<Seq<F64>>,
    i: int,
    k: int,
    m: nat,
    j: int,
)
    requires
        0 < j,
        forall|c: int|
            0 < c < m && c != j ==> #[trigger] y[c][i] == z[c][i] && y[c][k] == z[c][k],
    ensures
        ({
            let d0 = y[0][i].value() * y[0][k].value() - z[0][i].value() * z[0][k].value();
            let dj = y[j][i].value() * y[j][k].value() - z[j][i].value() * z[j][k].value();
            gram(y, i, k, m) - gram(z, i, k, m) == (if m > 0 {
                d0
            } else {
                0
            }) + (if m > j {
                dj
            } else {
                0
            })
        }),
    decreases m,
{
    if m > 0 {
        lemma_gram_change(z, y, i, k, (m - 1) as nat, j);
        if m - 1 > 0 && m - 1 != j {
            assert(y[m - 1][i] == z[m - 1][i]);
        }
    }
}

/// The squares in a row are not above their sum.
proof fn lemma_gram_part(z: Seq<Seq<F64>>, i: int, m: nat, j: int)
    requires
        0 <= j < m,
    ensures
        0 <= gram(z, i, i, m),
        z[j][i].value() * z[j][i].value() <= gram(z, i, i, m),
        j > 0 ==> z[0][i].value() * z[0][i].value() + z[j][i].value() * z[j][i].value() <= gram(
            z,
            i,
            i,
            m,
        ),
    decreases m,
{
    let v = z[m - 1][i].value();
    let w = z[j][i].value();
    assert(v * v >= 0 && w * w >= 0) by (nonlinear_arith);
    if j < m - 1 {
        lemma_gram_part(z, i, (m - 1) as nat, j);
    } else if m > 1 {
        lemma_gram_part(z, i, (m - 1) as nat, 0);
    } else {
        assert(gram(z, i, i, 0) == 0);
    }
}

/// A number whose square is not above a bound.
spec fn bounded(v: F64, b: int) -> bool {
    v.finite() && v.value() * v.value() <= b
}

/// The sizes of two numbers of a row.
proof fn lemma_reach(a: int, c: int, b: int)
    requires
        a * a + c * c + DUST * DUST <= b,
        256 * b <= top() * top(),
    ensures
        reach(a, c) * reach(a, c) <= 3 * b,
        16 * size(a) <= top(),
        16 * size(c) <= top(),
{
    let x = size(a);
    let y = size(c);
    let d = DUST as int;
    let t = top() as int;
    lemma_size_product(a, a);
    lemma_size_product(c, c);
    assert(a * a >= 0 && c * c >= 0) by (nonlinear_arith);
    assert((x + y + d) * (x + y + d) <= 3 * (x * x + y * y + d * d)) by (nonlinear_arith);
    if 16 * x > t {
        assert(256 * (x * x) > t * t) by (nonlinear_arith)
            requires
                16 * x > t,
                t >= 0,
        ;
    }
    if 16 * y > t {
        assert(256 * (y * y) > t * t) by (nonlinear_arith)
            requires
                16 * y > t,
                t >= 0,
        ;
    }
}

/// The product of two numbers whose squares are not above a bound.
proof fn lemma_under(x: int, y: int, b: int)
    requires
        0 <= x,
        0 <= y,
        x * x <= b,
        y * y <= b,
    ensures
        x * y <= b,
{
    if x <= y {
        assert(x * y <= y * y) by (nonlinear_arith)
            requires
                0 <= x <= y,
        ;
    } else {
        assert(x * y <= x * x) by (nonlinear_arith)
            requires
                0 <= y <= x,
        ;
    }
}

/// A row after the columns are turned.
spec fn row_turned(a: F64, b: F64, x: F64, y: F64, c: int, s: int) -> bool {
    let t = unity() * reach(a.value(), b.value());
    let u = unity();
    &&& x.finite()
    &&& y.finite()
    &&& 0x2_0000_0000_0000 * size(x.value() * u - (a.value() * c + b.value() * s)) <= t
    &&& 0x2_0000_0000_0000 * size(y.value() * u - (a.value() * (-s) + b.value() * c)) <= t
}

/// The columns are turned in each row.
proof fn lemma_row_turned(z: Seq<Seq<F64>>, rows: nat, knew: int, j: int, i: int, b: int)
    requires
        shaped(z, rows, z.len()),
        finite_mat(z, rows),
        0 < j < z.len(),
        0 <= knew < rows,
        0 <= i < rows,
        gram(z, i, i, z.len()) + DUST * DUST <= b,
        256 * b <= top() * top(),
        rotates(z, knew, j),
    ensures
        ({
            let y = rotated_once(z, knew, j);
            let g = rotation_of(z[0][knew], z[j][knew]);
            &&& row_turned(z[0][i], z[j][i], y[0][i], y[j][i], g.0.value(), g.1.value())
            &&& reach(z[0][i].value(), z[j][i].value()) * reach(z[0][i].value(), z[j][i].value())
                <= 3 * b
        }),
{
    let y = rotated_once(z, knew, j);
    let (c, s) = rotation_of(z[0][knew], z[j][knew]);
    let p = z[0][i];
    let q = z[j][i];
    assert(z[0].len() == rows && z[j].len() == rows);
    assert(z[0][knew].finite() && z[j][knew].finite());
    assert(p.finite() && q.finite());
    lemma_rotation(z[0][knew], z[j][knew]);
    lemma_gram_part(z, i, z.len(), j);
    lemma_reach(p.value(), q.value(), b);
    lemma_one();
    lemma_negation_value(s);
    assert(unit_pair((-s).value(), c.value())) by {
        assert((-s.value()) * (-s.value()) == s.value() * s.value()) by (nonlinear_arith);
    }
    lemma_turned(p, q, c, s);
    lemma_turned(p, q, -s, c);
    let t = unity() * reach(p.value(), q.value());
    assert(y[0][i] == p * c + q * s);
    if i != knew {
        assert(y[j][i] == p * (-s) + q * c);
    } else {
        assert(y[j][i] == zero());
        lemma_fields(0);
        let u = unity() as int;
        assert(zero().value() * u == 0) by (nonlinear_arith)
            requires
                zero().value() == 0,
        ;
        let a = p.value();
        let e = q.value();
        let sv = s.value();
        let cv = c.value();
        assert(a * (-sv) + e * cv == cv * e - sv * a) by (nonlinear_arith);
        assert(u * (size(a) + size(e)) <= u * reach(a, e)) by (nonlinear_arith)
            requires
                reach(a, e) >= size(a) + size(e),
                u > 0,
        ;
    }
}

/// The largest size of an entry is that of an entry or zero.
proof fn lemma_max_bounded(acc: F64, x: Seq<F64>, k: nat, b: int)
    requires
        bounded(acc, b),
        !acc.sign(),
        k <= x.len(),
        forall|i: int| 0 <= i < k ==> bounded(#[trigger] x[i], b),
    ensures
        bounded(max_from(acc, magnitudes(x), k), b),
        !max_from(acc, magnitudes(x), k).sign(),
    decreases k,
{
    if k > 0 {
        lemma_max_bounded(acc, x, (k - 1) as nat, b);
        assert(bounded(x[k - 1], b));
        reveal(max_of);
        reveal(magnitude_of);
        let v = x[k - 1].value();
        assert((-v) * (-v) == v * v) by (nonlinear_arith);
    }
}

/// The largest size of an entry of the first `k` columns.
proof fn lemma_max_mat_bounded(z: Seq<Seq<F64>>, k: nat, b: int)
    requires
        k <= z.len(),
        b >= 0,
        forall|j: int, i: int|
            0 <= j < z.len() && 0 <= i < z[j].len() ==> bounded(#[trigger] z[j][i], b),
    ensures
        bounded(max_abs_cols(zero(), z, k), b),
        !max_abs_cols(zero(), z, k).sign(),
    decreases k,
{
    if k > 0 {
        lemma_max_mat_bounded(z, (k - 1) as nat, b);
        lemma_max_bounded(
            max_abs_cols(zero(), z, (k - 1) as nat),
            z[k - 1],
            z[k - 1].len(),
            b,
        );
    } else {
        lemma_fields(0);
        assert(zero().value() * zero().value() == 0) by (nonlinear_arith)
            requires
                zero().value() == 0,
        ;
    }
}

/// An entry that needs no rotation is small.
proof fn lemma_small_entry(x: F64, m: F64)
    requires
        x.finite(),
        m.finite(),
        !m.sign(),
        !(magnitude_of(x) > rotation_floor() * m),
    ensures
        0x800_0000_0000_0000 * size(x.value()) <= m.value() + 0x800_0000_0000_0000,
{
    let f = rotation_floor();
    let u = unity() as int;
    lemma_one();
    lemma2_to64();
    lemma2_to64_rest();
    lemma_fields(f.mag());
    assert(expo(f.mag()) == 955);
    lemma_pow2_adds(53, 955);
    lemma_pow2_adds(1008, 66);
    lemma_pow2_pos(1008);
    lemma_pow2_pos(955);
    let sg = sig(f.mag());
    assert(sg * pow2(955) <= pow2(53) * pow2(955)) by (nonlinear_arith)
        requires
            sg <= pow2(53),
    ;
    lemma_pow2_adds(6, 60);
    assert(pow2(1008) * pow2(66) == 64 * (pow2(1008) * pow2(60))) by (nonlinear_arith)
        requires
            pow2(66) == 64 * pow2(60),
    ;
    assert(0x1000_0000_0000_0000 * f.value() <= u) by {
        assert(pow2(1008) * pow2(60) == 0x1000_0000_0000_0000 * pow2(1008)) by (nonlinear_arith)
            requires
                pow2(60) == 0x1000_0000_0000_0000,
        ;
    }
    let v = m.value();
    let fv = f.value();
    assert(0 <= 0x1000_0000_0000_0000 * (fv * v) <= u * v) by (nonlinear_arith)
        requires
            0 <= 0x1000_0000_0000_0000 * fv <= u,
            v >= 0,
    ;
    lemma_units_monotone(m.mag(), (INF_MAG - 1) as nat);
    let n = units(f.mag()) * units(m.mag());
    assert(n <= top() * unity()) by (nonlinear_arith)
        requires
            n == units(f.mag()) * units(m.mag()),
            units(f.mag()) <= unity(),
            units(m.mag()) <= top(),
    ;
    assert((f * m).finite()) by {
        reveal(product_of);
        lemma_round_near(n, unity());
    }
    lemma_product_error(f, m);
    reveal(magnitude_of);
    let ax = magnitude_of(x);
    lemma_order_value(f * m, ax);
    let p = (f * m).value();
    let pu = p * u;
    let ev = fv * v;
    let uv = u * v;
    assert(0x20_0000_0000_0000 * size(pu - ev) <= ev + 0x10_0000_0000_0000 * u);
    assert(0x20_0000_0000_0000 * (pu - ev) <= ev + 0x10_0000_0000_0000 * u);
    assert(0x800_0000_0000_0000 * pu <= uv + 0x800_0000_0000_0000 * u);
    assert(0x800_0000_0000_0000 * p <= v + 0x800_0000_0000_0000) by (nonlinear_arith)
        requires
            0x800_0000_0000_0000 * pu <= uv + 0x800_0000_0000_0000 * u,
            pu == p * u,
            uv == u * v,
            u > 0,
    ;
}

/// The rows of a matrix are bounded: the squares of a row add up to `b` at most, with a little to
/// spare.
pub open spec fn rows_bounded(z: Seq<Seq<F64>>, rows: nat, b: int) -> bool {
    forall|i: int| 0 <= i < rows ==> #[trigger] gram(z, i, i, z.len()) + DUST * DUST <= b
}

/// What one rotation keeps of the product of two rows.
proof fn lemma_once(z: Seq<Seq<F64>>, rows: nat, knew: int, j: int, i: int, k: int, b: int)
    requires
        shaped(z, rows, z.len()),
        finite_mat(z, rows),
        0 < j < z.len(),
        0 <= knew < rows,
        0 <= i < rows,
        0 <= k < rows,
        rows_bounded(z, rows, b),
        256 * b <= top() * top(),
    ensures
        ({
            let y = rotated_once(z, knew, j);
            let m = z.len();
            &&& 0x400_0000_0000 * size(gram(y, i, k, m) - gram(z, i, k, m)) <= b
            &&& y[0][i].finite()
            &&& y[j][i].finite()
        }),
{
    let y = rotated_once(z, knew, j);
    let m = z.len();
    assert(z[0].len() == rows && z[j].len() == rows);
    assert(gram(z, i, i, m) + DUST * DUST <= b);
    assert(gram(z, k, k, m) + DUST * DUST <= b);
    assert(z[0][i].finite() && z[j][i].finite());
    lemma_gram_change(z, y, i, k, m, j);
    let a = z[0][i].value();
    let c = z[j][i].value();
    let v = z[0][k].value();
    let w = z[j][k].value();
    if rotates(z, knew, j) {
        let g = rotation_of(z[0][knew], z[j][knew]);
        assert(z[0][knew].finite() && z[j][knew].finite());
        lemma_row_turned(z, rows, knew, j, i, b);
        lemma_row_turned(z, rows, knew, j, k, b);
        lemma_rotation(z[0][knew], z[j][knew]);
        lemma_one();
        let cv = g.0.value();
        let sv = g.1.value();
        assert(cv * cv >= 0 && sv * sv >= 0) by (nonlinear_arith);
        let u = unity() as int;
        assert(u * u > 0) by (nonlinear_arith)
            requires
                u > 0,
        ;
        lemma_root_bound(cv, u);
        lemma_root_bound(sv, u);
        lemma_turned_product(
            a,
            c,
            v,
            w,
            y[0][i].value(),
            y[j][i].value(),
            y[0][k].value(),
            y[j][k].value(),
            cv,
            sv,
            reach(a, c),
            reach(v, w),
        );
        lemma_under(reach(a, c), reach(v, w), 3 * b);
    } else {
        lemma_fields(0);
        assert(zero().value() == 0);
        lemma_entry_dropped(z, rows, knew, j, i, k, b);
    }
}

/// What becomes of the product of two rows where an entry is dropped.
proof fn lemma_entry_dropped(
    z: Seq<Seq<F64>>,
    rows: nat,
    knew: int,
    j: int,
    i: int,
    k: int,
    b: int,
)
    requires
        shaped(z, rows, z.len()),
        finite_mat(z, rows),
        0 < j < z.len(),
        0 <= knew < rows,
        0 <= i < rows,
        0 <= k < rows,
        rows_bounded(z, rows, b),
        !rotates(z, knew, j),
    ensures
        ({
            let y = rotated_once(z, knew, j);
            &&& y[0] == z[0]
            &&& 0x400_0000_0000 * size(
                y[j][i].value() * y[j][k].value() - z[j][i].value() * z[j][k].value(),
            ) <= b
        }),
{
    let y = rotated_once(z, knew, j);
    let m = z.len();
    assert(z[j].len() == rows);
    lemma_fields(0);
    assert(zero().value() == 0);
    assert(gram(z, i, i, m) + DUST * DUST <= b);
    assert(gram(z, k, k, m) + DUST * DUST <= b);
    lemma_gram_part(z, i, m, j);
    lemma_gram_part(z, k, m, j);
    let p = z[j][i].value();
    let q = z[j][k].value();
    if i != knew && k != knew {
        assert(y[j][i] == z[j][i] && y[j][k] == z[j][k]);
    } else {
        let o = if i == knew {
            q
        } else {
            p
        };
        let x = z[j][knew];
        assert(x.finite());
        assert(y[j][knew] == zero());
        assert(y[j][i].value() * y[j][k].value() == 0) by (nonlinear_arith)
            requires
                y[j][i].value() == 0 || y[j][k].value() == 0,
        ;
        assert forall|d: int, r: int| 0 <= d < m && 0 <= r < z[d].len() implies bounded(
            #[trigger] z[d][r],
            b,
        ) by {
            assert(z[d].len() == rows);
            assert(z[d][r].finite());
            assert(gram(z, r, r, m) + DUST * DUST <= b);
            lemma_gram_part(z, r, m, d);
        }
        lemma_max_mat_bounded(z, m, b);
        let mx = max_abs_mat(z);
        lemma_small_entry(x, mx);
        lemma_size_product(p, q);
        let sx = size(x.value());
        let so = size(o);
        lemma_size_product(o, o);
        assert(o * o >= 0) by (nonlinear_arith);
        assert(size(p) * size(q) == sx * so) by (nonlinear_arith)
            requires
                size(p) == sx && size(q) == so || size(p) == so && size(q) == sx,
        ;
        let mv = mx.value();
        lemma_under(mv, so, b);
        lemma_under(DUST as int, so, b);
        assert(0x800_0000_0000_0000 * (sx * so) <= mv * so + 0x800_0000_0000_0000 * so) by (
        nonlinear_arith)
            requires
                0x800_0000_0000_0000 * sx <= mv + 0x800_0000_0000_0000,
                so >= 0,
        ;
        assert(0x800_0000_0000_0000 * so == 8 * (DUST * so)) by (nonlinear_arith)
            requires
                DUST == 0x100_0000_0000_0000,
        ;
    }
}

/// The rotations make row `knew` of `zmat` zero in every column but the first, and keep the product
/// of `zmat` with its transpose, up to as many parts in two to the power 41 of the largest sum of
/// the squares of a row as there are columns.
pub proof fn lemma_rotations_keep(z: Seq<Seq<F64>>, rows: nat, knew: int, b: int)
    requires
        shaped(z, rows, z.len()),
        finite_mat(z, rows),
        0 <= knew < rows,
        0 < z.len() <= 0x100_0000_0000,
        rows_bounded(z, rows, b),
        512 * b <= top() * top(),
    ensures
        ({
            let y = rotated(z, knew, z.len());
            let m = z.len();
            &&& shaped(y, rows, m)
            &&& finite_mat(y, rows)
            &&& forall|j: int| 0 < j < m ==> (#[trigger] y[j])[knew].zero()
            &&& forall|i: int, k: int|
                0 <= i < rows && 0 <= k < rows ==> 0x200_0000_0000 * size(
                    #[trigger] gram(y, i, k, m) - gram(z, i, k, m),
                ) <= m * b
        }),
{
    lemma_rotations(z, rows, knew, b, z.len());
}

/// What the first `k - 1` rotations keep.
proof fn lemma_rotations(z: Seq<Seq<F64>>, rows: nat, knew: int, b: int, n: nat)
    requires
        shaped(z, rows, z.len()),
        finite_mat(z, rows),
        0 <= knew < rows,
        n <= z.len() <= 0x100_0000_0000,
        z.len() > 0,
        rows_bounded(z, rows, b),
        512 * b <= top() * top(),
    ensures
        ({
            let y = rotated(z, knew, n);
            let m = z.len();
            &&& shaped(y, rows, m)
            &&& finite_mat(y, rows)
            &&& forall|j: int| 0 < j < n ==> (#[trigger] y[j])[knew].zero()
            &&& forall|i: int, k: int|
                0 <= i < rows && 0 <= k < rows ==> 0x200_0000_0000 * size(
                    #[trigger] gram(y, i, k, m) - gram(z, i, k, m),
                ) <= n * b
        }),
    decreases n,
{
    let m = z.len();
    lemma_gram_part(z, knew, m, 0);
    assert(gram(z, knew, knew, m) + DUST * DUST <= b);
    assert(n * b >= 0) by (nonlinear_arith)
        requires
            b >= 0,
    ;
    if n > 1 {
        let l = (n - 1) as nat;
        lemma_rotations(z, rows, knew, b, l);
        let x = rotated(z, knew, l);
        let y = rotated(z, knew, n);
        assert(y == rotated_once(x, knew, n - 1));
        assert(l * b <= 0x100_0000_0000 * b) by (nonlinear_arith)
            requires
                l <= 0x100_0000_0000,
                b >= 0,
        ;
        assert(rows_bounded(x, rows, 2 * b)) by {
            assert forall|i: int| 0 <= i < rows implies #[trigger] gram(x, i, i, x.len()) + DUST
                * DUST <= 2 * b by {
                assert(gram(z, i, i, m) + DUST * DUST <= b);
            }
        }
        assert(x[0].len() == rows && x[l as int].len() == rows);
        assert(shaped(y, rows, m)) by {
            assert forall|j: int| 0 <= j < m implies (#[trigger] y[j]).len() == rows by {
                assert(x[j].len() == rows);
            }
        }
        assert forall|j: int, i: int| 0 <= j < m && 0 <= i < rows implies (
        #[trigger] y[j][i]).finite() by {
            lemma_once(x, rows, knew, l as int, i, i, 2 * b);
            if j != 0 && j != l {
                assert(y[j] == x[j]);
                assert(x[j][i].finite());
            }
        }
        assert forall|j: int| 0 < j < n implies (#[trigger] y[j])[knew].zero() by {
            if j < l {
                assert(y[j] == x[j]);
                assert(x[j][knew].zero());
            }
        }
        assert(n * b == l * b + b) by (nonlinear_arith)
            requires
                n == l + 1,
        ;
        assert forall|i: int, k: int| 0 <= i < rows && 0 <= k < rows implies 0x200_0000_0000
            * size(#[trigger] gram(y, i, k, m) - gram(z, i, k, m)) <= n * b by {
            lemma_once(x, rows, knew, l as int, i, k, 2 * b);
            let e = gram(x, i, k, m) - gram(z, i, k, m);
            assert(0x200_0000_0000 * size(e) <= l * b);
        }
    }
}

} // verus!
