//! How accurate sums of products are: inner products, products with matrices, and the change of a
//! quadratic model.
use vstd::prelude::*;

use crate::consts::zero;
use crate::float::arith::lemma_fields;
use crate::float::arith::magnitude_of;
use crate::float::arith::product_of;
use crate::float::arith::root_of;
use crate::float::arith::sum_of;
use crate::float::calculus::lemma_near_product;
use crate::float::calculus::lemma_near_self;
use crate::float::calculus::lemma_near_sum;
use crate::float::calculus::near;
use crate::float::calculus::MANY;
use crate::float::convert::unity;
use crate::float::error::lemma_root_error;
use crate::float::error::size;
use crate::float::error::SHARP;
use crate::float::order::at_most;
use crate::float::F64;
use crate::geometry::length::lemma_max_above;
use crate::linalg::matvec;
use crate::linalg::norm_of;
use crate::linalg::vecmat;
use crate::mat::row;
use crate::vector::all_finite;
use crate::vector::dot;
use crate::vector::dot_from;
use crate::vector::lemma_dot_sign;
use crate::vector::magnitudes;
use crate::vector::max_abs;
use crate::vector::partial_sum;

verus! {

/// The sum of the products of the first `k` integers.
pub open spec fn exact_dot(a: Seq<int>, b: Seq<int>, k: nat) -> int
    decreases k,
{
    if k == 0 {
        0
    } else {
        exact_dot(a, b, (k - 1) as nat) + a[k - 1] * b[k - 1]
    }
}

/// The exact values of the entries.
pub open spec fn values(x: Seq<F64>) -> Seq<int> {
    Seq::new(x.len(), |i: int| x[i].value())
}

/// The first `k` entries, times `s`, are those of `a` up to `c` roundings beside `m`.
pub open spec fn all_near(x: Seq<F64>, s: int, a: Seq<int>, m: int, c: int, k: nat) -> bool {
    forall|i: int| 0 <= i < k ==> near(#[trigger] x[i], s, a[i], m, c)
}

/// The first `k` entries are finite and not larger than `b`.
pub open spec fn within_size(x: Seq<F64>, b: int, k: nat) -> bool {
    forall|i: int| 0 <= i < k ==> (#[trigger] x[i]).finite() && size(x[i].value()) <= b
}

/// Numbers are themselves.
pub proof fn lemma_all_near(x: Seq<F64>, b: int)
    requires
        within_size(x, b, x.len()),
        2 * SHARP <= b,
    ensures
        all_near(x, 1, values(x), b, 0, x.len()),
{
    assert forall|i: int| 0 <= i < x.len() implies near(#[trigger] x[i], 1, values(x)[i], b, 0) by {
        lemma_near_self(x[i], b);
    }
}

/// A finite sum of products has finite parts.
proof fn lemma_dot_parts(x: Seq<F64>, y: Seq<F64>, k: nat)
    requires
        k > 0,
        dot_from(zero(), x, y, k).finite(),
    ensures
        dot_from(zero(), x, y, (k - 1) as nat).finite(),
        (x[k - 1] * y[k - 1]).finite(),
{
    reveal(sum_of);
}

/// An inner product is the exact sum of the exact products, up to as many roundings as there are
/// entries, and those of the entries.
pub proof fn lemma_dot_near(
    x: Seq<F64>,
    y: Seq<F64>,
    k: nat,
    s: int,
    a: Seq<int>,
    m: int,
    c: int,
    t: int,
    b: Seq<int>,
    l: int,
    d: int,
)
    requires
        dot_from(zero(), x, y, k).finite(),
        all_near(x, s, a, m, c, k),
        all_near(y, t, b, l, d, k),
        s > 0,
        t > 0,
        0 <= c,
        0 <= d,
        c + d + 2 + k <= MANY,
        2 * SHARP * (s * t * unity()) <= m * l,
    ensures
        near(
            dot_from(zero(), x, y, k),
            s * t * unity(),
            exact_dot(a, b, k),
            (k + 1) * (m * l),
            c + d + 2 + k,
        ),
    decreases k,
{
    let u = unity() as int;
    let st = s * t * u;
    let ml = m * l;
    vstd::arithmetic::power2::lemma_pow2_pos(1074);
    if k == 0 {
        lemma_fields(0);
        assert(zero().value() * st == 0) by (nonlinear_arith)
            requires
                zero().value() == 0,
        ;
        let w = s * t;
        assert(w > 0) by (nonlinear_arith)
            requires
                w == s * t,
                s > 0,
                t > 0,
        ;
        assert(st > 0) by (nonlinear_arith)
            requires
                st == w * u,
                w > 0,
                u > 0,
        ;
        assert((k + 1) * ml == ml) by (nonlinear_arith)
            requires
                k == 0,
        ;
        let e = c + d + 2;
        assert(e * ml >= 0) by (nonlinear_arith)
            requires
                e >= 0,
                ml >= 0,
        ;
    } else {
        let h = (k - 1) as nat;
        lemma_dot_parts(x, y, k);
        lemma_dot_near(x, y, h, s, a, m, c, t, b, l, d);
        assert(near(x[h as int], s, a[h as int], m, c));
        assert(near(y[h as int], t, b[h as int], l, d));
        lemma_near_product(x[h as int], y[h as int], s, a[h as int], m, c, t, b[h as int], l, d);
        lemma_near_sum(
            dot_from(zero(), x, y, h),
            x[h as int] * y[h as int],
            st,
            exact_dot(a, b, h),
            (h + 1) * ml,
            c + d + 2 + h,
            a[h as int] * b[h as int],
            ml,
            c + d + 2,
        );
        assert((h + 1) * ml + ml == (k + 1) * ml) by (nonlinear_arith)
            requires
                k == h + 1,
        ;
    }
}

/// The inner product of two vectors is the exact one, up to as many parts in two to the power 48 of
/// the largest products as there are entries, and a few more.
pub proof fn lemma_inner_product(x: Seq<F64>, y: Seq<F64>, b: int, d: int)
    requires
        x.len() == y.len(),
        within_size(x, b, x.len()),
        within_size(y, d, y.len()),
        2 * SHARP <= b,
        2 * SHARP <= d,
        2 * SHARP * unity() <= b * d,
        dot(x, y).finite(),
        x.len() + 2 <= MANY,
    ensures
        near(
            dot(x, y),
            unity() as int,
            exact_dot(values(x), values(y), x.len()),
            (x.len() + 1) * (b * d),
            x.len() as int + 2,
        ),
{
    lemma_all_near(x, b);
    lemma_all_near(y, d);
    let u = unity() as int;
    assert(1 * 1 * u == u) by (nonlinear_arith);
    lemma_dot_near(x, y, x.len(), 1, values(x), b, 0, 1, values(y), d, 0);
}

/// The entries of a product of a row vector with a matrix are the exact inner products with the
/// columns, up to rounding.
pub proof fn lemma_vecmat_near(x: Seq<F64>, a: Seq<Seq<F64>>, b: int, d: int, j: int)
    requires
        0 <= j < a.len(),
        a[j].len() == x.len(),
        within_size(x, b, x.len()),
        within_size(a[j], d, x.len()),
        2 * SHARP <= b,
        2 * SHARP <= d,
        2 * SHARP * unity() <= b * d,
        vecmat(x, a)[j].finite(),
        x.len() + 2 <= MANY,
    ensures
        near(
            vecmat(x, a)[j],
            unity() as int,
            exact_dot(values(x), values(a[j]), x.len()),
            (x.len() + 1) * (b * d),
            x.len() as int + 2,
        ),
{
    lemma_inner_product(x, a[j], b, d);
}

/// The entries of a product of a matrix with a column vector are the exact inner products with the
/// rows, up to rounding.
pub proof fn lemma_matvec_near(a: Seq<Seq<F64>>, y: Seq<F64>, nr: nat, b: int, d: int, i: int)
    requires
        0 <= i < nr,
        a.len() == y.len(),
        within_size(row(a, i), b, a.len()),
        within_size(y, d, y.len()),
        2 * SHARP <= b,
        2 * SHARP <= d,
        2 * SHARP * unity() <= b * d,
        matvec(a, y, nr)[i].finite(),
        a.len() + 2 <= MANY,
    ensures
        near(
            matvec(a, y, nr)[i],
            unity() as int,
            exact_dot(values(row(a, i)), values(y), y.len()),
            (y.len() + 1) * (b * d),
            y.len() as int + 2,
        ),
{
    lemma_inner_product(row(a, i), y, b, d);
}

/// The sum of the first `k` integers.
pub open spec fn exact_sum(a: Seq<int>, k: nat) -> int
    decreases k,
{
    if k == 0 {
        0
    } else {
        exact_sum(a, (k - 1) as nat) + a[k - 1]
    }
}

/// A sum is the exact one, up to as many roundings as there are entries.
pub proof fn lemma_sum_near(x: Seq<F64>, k: nat, b: int)
    requires
        k <= x.len(),
        partial_sum(x, k).finite(),
        within_size(x, b, k),
        2 * SHARP <= b,
        k + 1 <= MANY,
    ensures
        near(partial_sum(x, k), 1, exact_sum(values(x), k), (k + 1) * b, k as int),
    decreases k,
{
    if k == 0 {
        lemma_fields(0);
        lemma_near_self(zero(), b);
        assert((k + 1) * b == b) by (nonlinear_arith)
            requires
                k == 0,
        ;
    } else {
        let h = (k - 1) as nat;
        assert(partial_sum(x, h).finite() && x[h as int].finite()) by {
            reveal(sum_of);
        }
        lemma_sum_near(x, h, b);
        lemma_near_self(x[h as int], b);
        lemma_near_sum(
            partial_sum(x, h),
            x[h as int],
            1,
            exact_sum(values(x), h),
            (h + 1) * b,
            h as int,
            x[h as int].value(),
            b,
            0,
        );
        assert((h + 1) * b + b == (k + 1) * b) by (nonlinear_arith)
            requires
                k == h + 1,
        ;
    }
}

/// A finite sum of products has finite products, each of finite numbers.
pub proof fn lemma_dot_finite(x: Seq<F64>, y: Seq<F64>, k: nat, j: int)
    requires
        dot_from(zero(), x, y, k).finite(),
        0 <= j < k,
    ensures
        (x[j] * y[j]).finite(),
        x[j].finite(),
        y[j].finite(),
    decreases k,
{
    lemma_dot_parts(x, y, k);
    if j < k - 1 {
        lemma_dot_finite(x, y, (k - 1) as nat, j);
    } else {
        reveal(product_of);
    }
}

/// A finite sum of products added to a number has finite parts.
pub proof fn lemma_added_finite(acc: F64, x: Seq<F64>, y: Seq<F64>, k: nat)
    requires
        dot_from(acc, x, y, k).finite(),
    ensures
        acc.finite(),
    decreases k,
{
    if k > 0 {
        reveal(sum_of);
        lemma_added_finite(acc, x, y, (k - 1) as nat);
    }
}

/// A sum of products added to a number that is known up to rounding.
pub proof fn lemma_dot_added(
    acc: F64,
    x: Seq<F64>,
    y: Seq<F64>,
    k: nat,
    s: int,
    a: Seq<int>,
    m: int,
    c: int,
    t: int,
    b: Seq<int>,
    l: int,
    d: int,
    n0: int,
    m0: int,
    c0: int,
)
    requires
        dot_from(acc, x, y, k).finite(),
        near(acc, s * t * unity(), n0, m0, c0),
        all_near(x, s, a, m, c, k),
        all_near(y, t, b, l, d, k),
        s > 0,
        t > 0,
        0 <= c,
        0 <= d,
        c + d + 2 <= c0,
        c0 + k <= MANY,
        2 * SHARP * (s * t * unity()) <= m * l,
    ensures
        near(
            dot_from(acc, x, y, k),
            s * t * unity(),
            n0 + exact_dot(a, b, k),
            m0 + k * (m * l),
            c0 + k,
        ),
    decreases k,
{
    let ml = m * l;
    if k == 0 {
        assert(k * ml == 0) by (nonlinear_arith)
            requires
                k == 0,
        ;
    } else {
        let h = (k - 1) as nat;
        assert(dot_from(acc, x, y, h).finite() && (x[h as int] * y[h as int]).finite()) by {
            reveal(sum_of);
        }
        lemma_dot_added(acc, x, y, h, s, a, m, c, t, b, l, d, n0, m0, c0);
        assert(near(x[h as int], s, a[h as int], m, c));
        assert(near(y[h as int], t, b[h as int], l, d));
        lemma_near_product(x[h as int], y[h as int], s, a[h as int], m, c, t, b[h as int], l, d);
        lemma_near_sum(
            dot_from(acc, x, y, h),
            x[h as int] * y[h as int],
            s * t * unity(),
            n0 + exact_dot(a, b, h),
            m0 + h * ml,
            c0 + h,
            a[h as int] * b[h as int],
            ml,
            c + d + 2,
        );
        assert(h * ml + ml == k * ml) by (nonlinear_arith)
            requires
                k == h + 1,
        ;
    }
}

/// The norm is the square root of the inner product of the vector with itself, which is the exact
/// sum of the squares up to rounding; and its square is that product up to one part in two to the
/// power 50.
pub proof fn lemma_norm_near(x: Seq<F64>, b: int)
    requires
        0 < x.len(),
        x.len() + 2 <= MANY,
        within_size(x, b, x.len()),
        2 * SHARP <= b,
        2 * SHARP * unity() <= b * b,
        dot(x, x).finite(),
        dot(x, x).value() >= 1,
        exists|i: int| 0 <= i < x.len() && !(#[trigger] x[i]).zero(),
    ensures
        norm_of(x).finite(),
        norm_of(x).value() > 0,
        0x4_0000_0000_0000 * size(
            norm_of(x).value() * norm_of(x).value() - dot(x, x).value() * unity(),
        ) <= dot(x, x).value() * unity(),
        near(
            dot(x, x),
            unity() as int,
            exact_dot(values(x), values(x), x.len()),
            (x.len() + 1) * (b * b),
            x.len() as int + 2,
        ),
{
    let q = dot(x, x);
    let y = root_of(q);
    lemma_inner_product(x, x, b, b);
    lemma_dot_sign(x, x.len());
    lemma_fields(0);
    lemma_root_error(q);
    assert(all_finite(x)) by {
        assert forall|i: int| 0 <= i < x.len() implies (#[trigger] x[i]).finite() by {}
    }
    let i = choose|i: int| 0 <= i < x.len() && !(#[trigger] x[i]).zero();
    let m = magnitudes(x);
    assert(m[i] == magnitude_of(x[i]));
    assert(x[i].finite());
    assert(!m[i].nan() && m[i].mag() > 0 && !m[i].sign()) by {
        reveal(magnitude_of);
    }
    lemma_max_above(zero(), m, m.len(), i);
    assert(!(max_abs(x) <= zero()) && !(y <= zero())) by {
        reveal(at_most);
    }
    assert(norm_of(x) == y);
}

} // verus!
