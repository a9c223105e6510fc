//! Rounding to the nearest binary64 magnitude, ties to even.
//!
//! The exact results of the arithmetic operations are ratios (or a square root) of natural
//! numbers.  `round_ratio` and `round_root` say which magnitude such a result rounds to;
//! `pack` computes it from the leading bits of the result and a flag for what lies below them.
use vstd::arithmetic::power2::lemma2_to64;
use vstd::arithmetic::power2::lemma_pow2_adds;
use vstd::arithmetic::power2::lemma_pow2_pos;
use vstd::arithmetic::power2::lemma_pow2_strictly_increases;
use vstd::arithmetic::power2::lemma_pow2_unfold;
use vstd::arithmetic::power2::pow2;
use vstd::prelude::*;

use crate::float::HIDDEN;
use crate::float::INF_MAG;

verus! {

/// Two to the power 53: magnitudes have 53 significant bits.
pub const PRECISION_SCALE: u64 = 0x20_0000_0000_0000;

/// The quotient `n / d` rounded to the nearest natural number, ties to even.
pub open spec fn nearest_even(n: nat, d: nat) -> nat {
    let q = n / d;
    let r = n % d;
    if 2 * r > d || (2 * r == d && q % 2 == 1) {
        q + 1
    } else {
        q
    }
}

/// The exponent of the last significant bit of `n / d` among the magnitudes: the least `e` for
/// which `n / d` lies below two to the power `53 + e`.
pub open spec fn quantum(n: nat, d: nat) -> nat
    decreases n - d,
{
    if d == 0 || n < d * (PRECISION_SCALE as nat) {
        0
    } else {
        1 + quantum(n, 2 * d)
    }
}

/// The magnitude bits with significand `q` and exponent `e`, or those of infinity.
pub open spec fn encode(q: nat, e: nat) -> nat {
    let m = q + e * (HIDDEN as nat);
    if m < INF_MAG {
        m
    } else {
        INF_MAG as nat
    }
}

/// The magnitude nearest to `n / d` smallest units.
pub open spec fn round_ratio(n: nat, d: nat) -> nat {
    let e = quantum(n, d);
    encode(nearest_even(n, d * pow2(e)), e)
}

/// Whether `q` is the integral part of the square root of `n / d`.
pub open spec fn is_root(n: nat, d: nat, q: nat) -> bool {
    q * q * d <= n < (q + 1) * (q + 1) * d
}

/// The exponent of the last significant bit of the square root of `n / d`: the least `e` for
/// which that root lies below two to the power `53 + e`.
pub open spec fn root_quantum(n: nat, d: nat) -> nat
    decreases n - d,
{
    if d == 0 || n < d * (PRECISION_SCALE as nat) * (PRECISION_SCALE as nat) {
        0
    } else {
        1 + root_quantum(n, 4 * d)
    }
}

/// The magnitude nearest to the square root of `n`, in smallest units.
pub open spec fn round_root(n: nat) -> nat {
    let e = root_quantum(n, 1);
    let d = pow2(e) * pow2(e);
    let q = choose|q: nat| is_root(n, d, q);
    let h = (2 * q + 1) * (2 * q + 1) * d;
    encode(
        if 4 * n > h || (4 * n == h && q % 2 == 1) {
            q + 1
        } else {
            q
        },
        e,
    )
}

/// The offset that makes binary exponents natural numbers.
pub open spec fn offset(t: int) -> nat {
    (t + 1200) as nat
}

/// `n / d` is `m` units of two to the power `t`, with a fraction of a unit more exactly when
/// `more` holds.
pub open spec fn brackets_ratio(n: nat, d: nat, m: nat, t: int, more: bool) -> bool {
    let scaled = n * pow2(1200);
    let unit = d * pow2(offset(t));
    if more {
        m * unit < scaled < (m + 1) * unit
    } else {
        scaled == m * unit
    }
}

/// The square root of `n` is `m` units of two to the power `t`, with a fraction of a unit more
/// exactly when `more` holds.
pub open spec fn brackets_root(n: nat, m: nat, t: nat, more: bool) -> bool {
    let unit = pow2(t) * pow2(t);
    if more {
        m * m * unit < n < (m + 1) * (m + 1) * unit
    } else {
        n == m * m * unit
    }
}

/// Whether `m` has exactly `l` bits.
pub open spec fn has_length(m: nat, l: nat) -> bool {
    &&& l >= 1
    &&& pow2((l - 1) as nat) <= m < pow2(l)
}

/// The exponent of the last significant bit of a number of `l` bits at exponent `t`.
pub open spec fn pack_exponent(l: nat, t: int) -> nat {
    if l + t > 53 {
        (l + t - 53) as nat
    } else {
        0
    }
}

/// The rounded significand of `m` units of two to the power `t`, and a fraction of a unit more
/// exactly when `more` holds, where `m` has `l` bits.
pub open spec fn pack_significand(m: nat, l: nat, t: int, more: bool) -> nat {
    let s = pack_exponent(l, t) - t;
    if s <= 0 {
        m * pow2((-s) as nat)
    } else {
        let p = pow2(s as nat);
        let q = m / p;
        let r = m % p;
        if 2 * r > p || (2 * r == p && (more || q % 2 == 1)) {
            q + 1
        } else {
            q
        }
    }
}

pub(crate) proof fn lemma_quantum(n: nat, d: nat, e: nat)
    requires
        d > 0,
        n < d * pow2(53 + e),
        e > 0 ==> n >= d * pow2((52 + e) as nat),
    ensures
        quantum(n, d) == e,
    decreases e,
{
    lemma2_to64();
    assert(pow2(53) == PRECISION_SCALE) by {
        vstd::arithmetic::power2::lemma2_to64_rest();
    }
    if e > 0 {
        assert(pow2((52 + e) as nat) >= pow2(53)) by {
            if e > 1 {
                lemma_pow2_strictly_increases(53, (52 + e) as nat);
            }
        }
        assert(d * pow2((52 + e) as nat) >= d * pow2(53)) by (nonlinear_arith)
            requires
                pow2((52 + e) as nat) >= pow2(53),
        ;
        let f = (e - 1) as nat;
        lemma_pow2_unfold(53 + e);
        assert(d * pow2(53 + e) == (2 * d) * pow2(53 + f)) by (nonlinear_arith)
            requires
                pow2(53 + e) == 2 * pow2(53 + f),
        ;
        if e > 1 {
            lemma_pow2_unfold((52 + e) as nat);
            assert(d * pow2((52 + e) as nat) == (2 * d) * pow2((52 + f) as nat)) by (nonlinear_arith)
                requires
                    pow2((52 + e) as nat) == 2 * pow2((52 + f) as nat),
            ;
        }
        lemma_quantum(n, 2 * d, f);
    }
}

proof fn lemma_cancel_lt(a: nat, b: nat, c: nat)
    requires
        a * c < b * c,
    ensures
        a < b,
{
    assert(a < b) by (nonlinear_arith)
        requires
            a * c < b * c,
    ;
}

proof fn lemma_cancel_le(a: nat, b: nat, c: nat)
    requires
        a * c <= b * c,
        c > 0,
    ensures
        a <= b,
{
    assert(a <= b) by (nonlinear_arith)
        requires
            a * c <= b * c,
            c > 0,
    ;
}

/// The quotient and remainder are determined by their defining bounds.
proof fn lemma_div_mod(n: nat, d: nat, q: nat)
    requires
        q * d <= n < (q + 1) * d,
    ensures
        n / d == q,
        n % d == n - q * d,
{
    assert((q + 1) * d == q * d + d) by (nonlinear_arith);
    vstd::arithmetic::div_mod::lemma_fundamental_div_mod_converse(
        n as int,
        d as int,
        q as int,
        n - q * d,
    );
}

/// The fraction that `m` leaves below the unit `p`, against one half.
proof fn lemma_split(m: nat, p: nat, u: nat, x: nat, more: bool)
    requires
        p > 0,
        p % 2 == 0,
        u > 0,
        if more {
            m * u < x < (m + 1) * u
        } else {
            x == m * u
        },
    ensures
        ({
            let q = m / p;
            let r = m % p;
            let y = x - q * (u * p);
            &&& q * (u * p) <= x < (q + 1) * (u * p)
            &&& (2 * r > p ==> 2 * y > u * p)
            &&& (2 * r == p ==> (if more { 2 * y > u * p } else { 2 * y == u * p }))
            &&& (2 * r < p ==> 2 * y < u * p)
        }),
{
    let q = m / p;
    let r = m % p;
    vstd::arithmetic::div_mod::lemma_fundamental_div_mod(m as int, p as int);
    assert(m == p * q + r && r < p);
    let y = x - q * (u * p);
    assert(q * (u * p) + u * r == m * u) by (nonlinear_arith)
        requires
            m == p * q + r,
    ;
    assert((m + 1) * u == m * u + u) by (nonlinear_arith);
    assert((q + 1) * (u * p) == q * (u * p) + u * p) by (nonlinear_arith);
    assert(u * r + u <= u * p) by (nonlinear_arith)
        requires
            r + 1 <= p,
    ;
    if 2 * r > p {
        assert(2 * (u * r) > u * p) by (nonlinear_arith)
            requires
                2 * r > p,
                u > 0,
        ;
    } else if 2 * r == p {
        assert(2 * (u * r) == u * p) by (nonlinear_arith)
            requires
                2 * r == p,
        ;
    } else {
        assert(2 * r + 2 <= p);
        assert(2 * (u * r) + 2 * u <= u * p) by (nonlinear_arith)
            requires
                2 * r + 2 <= p,
        ;
    }
}

/// Rounding the leading bits of a ratio, with what lies below them, rounds the ratio.
pub proof fn lemma_pack_ratio(n: nat, d: nat, m: nat, l: nat, t: int, more: bool)
    requires
        d > 0,
        -1200 <= t,
        has_length(m, l),
        brackets_ratio(n, d, m, t, more),
        more ==> t < pack_exponent(l, t),
    ensures
        round_ratio(n, d) == encode(pack_significand(m, l, t, more), pack_exponent(l, t)),
{
    let e = pack_exponent(l, t);
    let s = e - t;
    let big = pow2(1200);
    let tk = offset(t);
    let unit = d * pow2(tk);
    let x = n * big;
    lemma_pow2_pos(1200);
    lemma_pow2_pos(tk);
    lemma_pow2_pos(e);
    assert(unit > 0) by (nonlinear_arith)
        requires
            d > 0,
            pow2(tk) > 0,
            unit == d * pow2(tk),
    ;
    assert(m * unit <= x < (m + 1) * unit) by {
        assert((m + 1) * unit == m * unit + unit) by (nonlinear_arith);
    }
    // The quantum.
    assert(quantum(n, d) == e) by {
        assert(n < d * pow2(53 + e)) by {
            assert((m + 1) * unit <= pow2(l) * unit) by (nonlinear_arith)
                requires
                    m + 1 <= pow2(l),
            ;
            lemma_pow2_adds(l, tk);
            assert(pow2(l) * unit == d * pow2(l + tk)) by (nonlinear_arith)
                requires
                    pow2(l) * pow2(tk) == pow2(l + tk),
                    unit == d * pow2(tk),
            ;
            assert(l + tk <= 53 + e + 1200);
            assert(pow2(l + tk) <= pow2((53 + e) + 1200)) by {
                if l + tk < 53 + e + 1200 {
                    lemma_pow2_strictly_increases(l + tk, (53 + e) + 1200);
                }
            }
            lemma_pow2_adds(53 + e, 1200);
            assert(d * pow2(l + tk) <= (d * pow2(53 + e)) * big) by (nonlinear_arith)
                requires
                    pow2(l + tk) <= pow2((53 + e) + 1200),
                    pow2((53 + e) + 1200) == pow2(53 + e) * big,
            ;
            lemma_cancel_lt(n, d * pow2(53 + e), big);
        }
        if e > 0 {
            assert(pow2((l - 1) as nat) * unit <= m * unit) by (nonlinear_arith)
                requires
                    pow2((l - 1) as nat) <= m,
            ;
            lemma_pow2_adds((l - 1) as nat, tk);
            assert((l - 1) + tk == (52 + e) + 1200);
            lemma_pow2_adds((52 + e) as nat, 1200);
            assert(pow2((l - 1) as nat) * unit == (d * pow2((52 + e) as nat)) * big)
                by (nonlinear_arith)
                requires
                    pow2((l - 1) as nat) * pow2(tk) == pow2((52 + e) as nat) * big,
                    unit == d * pow2(tk),
            ;
            lemma_cancel_le(d * pow2((52 + e) as nat), n, big);
        }
        lemma_quantum(n, d, e);
    }
    let dd = d * pow2(e);
    if s > 0 {
        let p = pow2(s as nat);
        lemma_pow2_pos(s as nat);
        lemma_pow2_unfold(s as nat);
        assert(p % 2 == 0) by {
            assert(p == 2 * pow2((s - 1) as nat));
        }
        lemma_split(m, p, unit, x, more);
        let q = m / p;
        assert(unit * p == dd * big) by {
            lemma_pow2_adds(tk, s as nat);
            lemma_pow2_adds(e, 1200);
            assert(tk + s as nat == e + 1200);
            assert(unit * p == dd * big) by (nonlinear_arith)
                requires
                    pow2(tk) * p == pow2(e) * big,
                    unit == d * pow2(tk),
                    dd == d * pow2(e),
            ;
        }
        assert(q * (dd * big) == (q * dd) * big) by (nonlinear_arith);
        assert((q + 1) * (dd * big) == ((q + 1) * dd) * big) by (nonlinear_arith);
        lemma_cancel_le(q * dd, n, big);
        lemma_cancel_lt(n, (q + 1) * dd, big);
        lemma_div_mod(n, dd, q);
        let y = (n - q * dd) as nat;
        assert(x - q * (unit * p) == y * big) by (nonlinear_arith)
            requires
                x == n * big,
                unit * p == dd * big,
                y == n - q * dd,
        ;
        assert(2 * (y * big) == (2 * y) * big) by (nonlinear_arith);
        let r = m % p;
        if 2 * r > p {
            lemma_cancel_lt(dd, 2 * y, big);
        } else if 2 * r == p {
            if more {
                lemma_cancel_lt(dd, 2 * y, big);
            } else {
                lemma_cancel_le(dd, 2 * y, big);
                lemma_cancel_le(2 * y, dd, big);
            }
        } else {
            lemma_cancel_lt(2 * y, dd, big);
        }
    } else {
        let k = (-s) as nat;
        lemma_pow2_adds(e, 1200);
        lemma_pow2_adds(e + 1200, k);
        assert(e + 1200 + k == tk);
        let q = m * pow2(k);
        assert(x == (q * dd) * big) by (nonlinear_arith)
            requires
                x == m * unit,
                unit == d * pow2(tk),
                pow2(tk) == pow2(e + 1200) * pow2(k),
                pow2(e + 1200) == pow2(e) * big,
                dd == d * pow2(e),
                q == m * pow2(k),
        ;
        lemma_cancel_le(q * dd, n, big);
        lemma_cancel_le(n, q * dd, big);
        assert((q + 1) * dd == q * dd + dd) by (nonlinear_arith);
        assert(dd > 0) by (nonlinear_arith)
            requires
                dd == d * pow2(e),
                d > 0,
                pow2(e) > 0,
        ;
        lemma_div_mod(n, dd, q);
    }
}

proof fn lemma_root_quantum(n: nat, d: nat, e: nat)
    requires
        d > 0,
        n < d * (pow2(53 + e) * pow2(53 + e)),
        e > 0 ==> n >= d * (pow2((52 + e) as nat) * pow2((52 + e) as nat)),
    ensures
        root_quantum(n, d) == e,
    decreases e,
{
    let c = PRECISION_SCALE as nat;
    assert(pow2(53) == c) by {
        vstd::arithmetic::power2::lemma2_to64_rest();
    }
    assert(d * c * c == d * (c * c)) by (nonlinear_arith);
    if e > 0 {
        assert(pow2((52 + e) as nat) >= pow2(53)) by {
            if e > 1 {
                lemma_pow2_strictly_increases(53, (52 + e) as nat);
            }
        }
        let w = pow2((52 + e) as nat);
        assert(d * (w * w) >= d * (c * c)) by (nonlinear_arith)
            requires
                w >= c,
        ;
        assert(d * (c * c) >= 4 * d) by (nonlinear_arith)
            requires
                c >= 2,
        ;
        let f = (e - 1) as nat;
        lemma_pow2_unfold(53 + e);
        let a = pow2(53 + e);
        let b = pow2(53 + f);
        assert(d * (a * a) == (4 * d) * (b * b)) by (nonlinear_arith)
            requires
                a == 2 * b,
        ;
        if e > 1 {
            lemma_pow2_unfold((52 + e) as nat);
            let v = pow2((52 + f) as nat);
            assert(d * (w * w) == (4 * d) * (v * v)) by (nonlinear_arith)
                requires
                    w == 2 * v,
            ;
        }
        lemma_root_quantum(n, 4 * d, f);
    }
}

proof fn lemma_square_le(a: nat, b: nat, u: nat)
    requires
        a <= b,
    ensures
        a * a * u <= b * b * u,
{
    assert(a * a <= b * b) by (nonlinear_arith)
        requires
            a <= b,
    ;
    assert(a * a * u <= b * b * u) by (nonlinear_arith)
        requires
            a * a <= b * b,
    ;
}

proof fn lemma_square_lt(a: nat, b: nat, u: nat)
    requires
        a < b,
        u > 0,
    ensures
        a * a * u < b * b * u,
{
    assert(a * a < b * b) by (nonlinear_arith)
        requires
            a < b,
    ;
    assert(a * a * u < b * b * u) by (nonlinear_arith)
        requires
            a * a < b * b,
            u > 0,
    ;
}

/// The integral part of a square root is unique.
proof fn lemma_root_unique(n: nat, d: nat, p: nat, q: nat)
    requires
        is_root(n, d, p),
        is_root(n, d, q),
    ensures
        p == q,
{
    if p < q {
        lemma_square_le(p + 1, q, d);
    } else if q < p {
        lemma_square_le(q + 1, p, d);
    }
}

/// Rounding the leading bits of a square root, with what lies below them, rounds the root.
pub proof fn lemma_pack_root(n: nat, m: nat, l: nat, t: nat, more: bool)
    requires
        has_length(m, l),
        l >= 54,
        brackets_root(n, m, t, more),
    ensures
        round_root(n) == encode(
            pack_significand(m, l, t as int, more),
            pack_exponent(l, t as int),
        ),
{
    let e = pack_exponent(l, t as int);
    let s = (e - t) as nat;
    let w = pow2(t);
    let unit = w * w;
    lemma_pow2_pos(t);
    assert(unit > 0) by (nonlinear_arith)
        requires
            w > 0,
            unit == w * w,
    ;
    assert(m * m * unit <= n < (m + 1) * (m + 1) * unit) by {
        lemma_square_lt(m, m + 1, unit);
    }
    assert(root_quantum(n, 1) == e) by {
        let a = pow2(53 + e);
        lemma_pow2_adds(l, t);
        assert(pow2(l) * w == a);
        lemma_square_le(m + 1, pow2(l), unit);
        let pl = pow2(l);
        assert(pl * pl * unit == 1 * (a * a)) by (nonlinear_arith)
            requires
                pl * w == a,
                unit == w * w,
        ;
        let b = pow2((52 + e) as nat);
        lemma_pow2_adds((l - 1) as nat, t);
        let ql = pow2((l - 1) as nat);
        assert(ql * w == b);
        lemma_square_le(ql, m, unit);
        assert(ql * ql * unit == 1 * (b * b)) by (nonlinear_arith)
            requires
                ql * w == b,
                unit == w * w,
        ;
        lemma_root_quantum(n, 1, e);
    }
    let p = pow2(s);
    lemma_pow2_pos(s);
    lemma_pow2_unfold(s);
    assert(p == 2 * pow2((s - 1) as nat));
    let d = pow2(e) * pow2(e);
    lemma_pow2_adds(t, s);
    assert(pow2(e) == w * p);
    let q = m / p;
    let r = m % p;
    vstd::arithmetic::div_mod::lemma_fundamental_div_mod(m as int, p as int);
    let qp = q * p;
    assert(m == qp + r && r < p) by (nonlinear_arith)
        requires
            m == p * q + r,
            r < p,
            qp == q * p,
    ;
    assert(is_root(n, d, q)) by {
        assert(q * q * d == qp * qp * unit) by (nonlinear_arith)
            requires
                qp == q * p,
                d == (w * p) * (w * p),
                unit == w * w,
        ;
        let qp1 = (q + 1) * p;
        assert(qp1 == qp + p) by (nonlinear_arith)
            requires
                qp1 == (q + 1) * p,
                qp == q * p,
        ;
        assert((q + 1) * (q + 1) * d == qp1 * qp1 * unit) by (nonlinear_arith)
            requires
                qp1 == (q + 1) * p,
                d == (w * p) * (w * p),
                unit == w * w,
        ;
        lemma_square_le(qp, m, unit);
        lemma_square_le(m + 1, qp1, unit);
    }
    let c = choose|q: nat| is_root(n, d, q);
    lemma_root_unique(n, d, c, q);
    let h = (2 * q + 1) * (2 * q + 1) * d;
    let hp = 2 * qp + p;
    assert(hp == (2 * q + 1) * p) by (nonlinear_arith)
        requires
            qp == q * p,
            hp == 2 * qp + p,
    ;
    assert(h == hp * hp * unit) by (nonlinear_arith)
        requires
            hp == (2 * q + 1) * p,
            h == (2 * q + 1) * (2 * q + 1) * d,
            d == (w * p) * (w * p),
            unit == w * w,
    ;
    assert(4 * (m * m * unit) == (2 * m) * (2 * m) * unit) by (nonlinear_arith);
    assert(4 * ((m + 1) * (m + 1) * unit) == (2 * (m + 1)) * (2 * (m + 1)) * unit)
        by (nonlinear_arith);
    if 2 * r > p {
        lemma_square_lt(hp, 2 * m, unit);
    } else if 2 * r == p {
        assert(hp == 2 * m);
    } else {
        lemma_square_le(2 * (m + 1), hp, unit);
    }
}

/// Two to the power `k`.
pub(crate) fn power_of_two(k: u32) -> (p: u128)
    requires
        k < 128,
    ensures
        p as nat == pow2(k as nat),
{
    let mut p: u128 = 1;
    let mut j: u32 = k;
    proof {
        lemma2_to64();
    }
    assert(p as nat * pow2(j as nat) == pow2(k as nat));
    if j >= 64 {
        proof {
            lemma_pow2_adds(64, (j - 64) as nat);
        }
        p = 0x1_0000_0000_0000_0000;
        j = j - 64;
    }
    assert(p as nat * pow2(j as nat) == pow2(k as nat));
    assert(j < 64);
    let ghost top = p;
    let mut c: u64 = 1;
    if j >= 32 {
        proof {
            lemma_pow2_adds(32, (j - 32) as nat);
        }
        c = 0x1_0000_0000;
        j = j - 32;
    }
    let ghost k1: u32 = (if k >= 64 { k - 64 } else { k as int }) as u32;
    assert(c as nat * pow2(j as nat) == pow2(k1 as nat));
    while j > 0
        invariant
            j < 64,
            c >= 1,
            k1 < 64,
            c as nat * pow2(j as nat) == pow2(k1 as nat),
        decreases j,
    {
        proof {
            lemma_pow2_unfold(j as nat);
            lemma_pow2_pos((j - 1) as nat);
            let c0 = c as nat;
            let h = pow2((j - 1) as nat);
            assert(c0 * (2 * h) == (2 * c0) * h) by (nonlinear_arith);
            assert((2 * c0) * h >= 2 * c0) by (nonlinear_arith)
                requires
                    h >= 1,
            ;
            lemma_pow2_strictly_increases(k1 as nat, 64);
            lemma2_to64();
        }
        c = c * 2;
        j = j - 1;
    }
    proof {
        lemma2_to64();
        assert(c as nat == pow2(k1 as nat)) by {
            assert(c as nat * 1 == c as nat);
        }
        if k >= 64 {
            lemma_pow2_adds(64, k1 as nat);
            lemma_pow2_strictly_increases(k1 as nat, 64);
            assert(top * c <= 0x1_0000_0000_0000_0000 * 0xffff_ffff_ffff_ffff) by (nonlinear_arith)
                requires
                    top == 0x1_0000_0000_0000_0000,
                    c <= 0xffff_ffff_ffff_ffff,
            ;
        }
    }
    p * (c as u128)
}

proof fn lemma_halve(m: nat, x: nat, l: nat, k: nat)
    requires
        x * pow2(l) <= m < (x + 1) * pow2(l),
    ensures
        (x / pow2(k)) * pow2(l + k) <= m < (x / pow2(k) + 1) * pow2(l + k),
{
    let a = pow2(l);
    let p = pow2(k);
    lemma_pow2_pos(k);
    lemma_pow2_adds(l, k);
    vstd::arithmetic::div_mod::lemma_fundamental_div_mod(x as int, p as int);
    let q = x / p;
    assert(q * (a * p) <= x * a) by (nonlinear_arith)
        requires
            p * q <= x,
    ;
    assert((x + 1) * a <= (q + 1) * (a * p)) by (nonlinear_arith)
        requires
            x + 1 <= p * q + p,
    ;
}

proof fn lemma_shave(y: nat, j: nat, k: nat)
    requires
        pow2(j) > y,
        y >= pow2(k),
    ensures
        j >= k,
        pow2((j - k) as nat) > y / pow2(k),
{
    if j < k {
        lemma_pow2_strictly_increases(j, k);
    }
    lemma_pow2_adds((j - k) as nat, k);
    lemma_pow2_pos(k);
    let p = pow2(k);
    let a = pow2((j - k) as nat);
    vstd::arithmetic::div_mod::lemma_fundamental_div_mod(y as int, p as int);
    let q = y / p;
    assert(q < a) by (nonlinear_arith)
        requires
            p * q <= y,
            y < a * p,
            p > 0,
    ;
}

/// The number of bits of `m`.
pub(crate) fn bit_length(m: u128) -> (l: u32)
    requires
        m > 0,
    ensures
        1 <= l <= 128,
        has_length(m as nat, l as nat),
{
    let mut l: u32 = 0;
    let mut x: u128 = m;
    assert(pow2(0) == 1 && pow2(64) == 0x1_0000_0000_0000_0000) by {
        lemma2_to64();
    }
    assert(x as nat * pow2(0) == x);
    assert((x as nat + 1) * pow2(0) == x + 1);
    if m >= 0x1_0000_0000_0000_0000 {
        proof {
            lemma_halve(m as nat, m as nat, 0, 64);
        }
        x = m / 0x1_0000_0000_0000_0000;
        l = 64;
    }
    let mut y: u64 = x as u64;
    let ghost top: int = if l == 64 { 128 } else { 64 };
    while y >= 0x100
        invariant
            m > 0,
            y > 0,
            top <= 128,
            y as nat * pow2(l as nat) <= m < (y as nat + 1) * pow2(l as nat),
            (l as int) <= top,
            pow2((top - l) as nat) > y,
        decreases y,
    {
        proof {
            lemma_halve(m as nat, y as nat, l as nat, 8);
            assert(pow2(8) == 0x100) by {
                lemma2_to64();
            }
            lemma_shave(y as nat, (top - l) as nat, 8);
        }
        y = y / 0x100;
        l = l + 8;
    }
    while y >= 2
        invariant
            m > 0,
            y > 0,
            top <= 128,
            y as nat * pow2(l as nat) <= m < (y as nat + 1) * pow2(l as nat),
            (l as int) <= top,
            pow2((top - l) as nat) > y,
        decreases y,
    {
        proof {
            lemma_halve(m as nat, y as nat, l as nat, 1);
            assert(pow2(1) == 2) by {
                lemma2_to64();
            }
            lemma_shave(y as nat, (top - l) as nat, 1);
        }
        y = y / 2;
        l = l + 1;
    }
    assert(y == 1);
    proof {
        lemma_pow2_unfold((l + 1) as nat);
        assert(1 * pow2(l as nat) <= m < 2 * pow2(l as nat));
        if l as int == top {
            lemma2_to64();
        }
    }
    l + 1
}

proof fn lemma_pow2_le(a: nat, b: nat)
    requires
        a <= b,
    ensures
        pow2(a) <= pow2(b),
{
    if a < b {
        lemma_pow2_strictly_increases(a, b);
    }
}

/// The magnitude nearest to `m` units of two to the power `t`, and a fraction of a unit more
/// exactly when `more` holds.
pub(crate) fn pack(m: u128, t: i32, more: bool) -> (r: u64)
    requires
        m > 0,
        -1200 <= t <= 3200,
    ensures
        r <= INF_MAG,
        exists|l: nat| #[trigger]
            has_length(m as nat, l) && r == encode(
                pack_significand(m as nat, l, t as int, more),
                pack_exponent(l, t as int),
            ),
{
    let l: u32 = bit_length(m);
    let x: i32 = l as i32 + t - 53;
    let e: i32 = if x > 0 {
        x
    } else {
        0
    };
    let s: i32 = e - t;
    assert(e as nat == pack_exponent(l as nat, t as int));
    proof {
        assert(pow2(53) == PRECISION_SCALE && pow2(64) == 0x1_0000_0000_0000_0000) by {
            vstd::arithmetic::power2::lemma2_to64_rest();
            lemma2_to64();
        }
    }
    if e >= 2047 {
        assert(e as nat * (HIDDEN as nat) >= INF_MAG as nat);
        return INF_MAG;
    }
    let q: u64;
    if s <= 0 {
        let k: u32 = (0 - s) as u32;
        proof {
            lemma_pow2_adds(l as nat, k as nat);
            lemma_pow2_le((l + k) as nat, 53);
            lemma_pow2_pos(k as nat);
            let mm = m as nat;
            let a = pow2(l as nat);
            let p = pow2(k as nat);
            assert(mm * p < a * p) by (nonlinear_arith)
                requires
                    mm < a,
                    p > 0,
            ;
            lemma_pow2_le(k as nat, 53);
        }
        let p: u128 = power_of_two(k);
        assert(m * p < PRECISION_SCALE);
        q = (m * p) as u64;
    } else if s > l as i32 {
        proof {
            lemma_pow2_unfold(s as nat);
            lemma_pow2_le(l as nat, (s - 1) as nat);
            vstd::arithmetic::div_mod::lemma_small_mod(m as nat, pow2(s as nat));
            vstd::arithmetic::div_mod::lemma_basic_div(m as int, pow2(s as nat) as int);
        }
        q = 0;
    } else if s == 128 {
        // All of `m` lies below the last significant bit, at least one half of it.
        let h: u128 = power_of_two(127);
        proof {
            lemma_pow2_unfold(128);
            vstd::arithmetic::div_mod::lemma_small_mod(m as nat, pow2(s as nat));
            vstd::arithmetic::div_mod::lemma_basic_div(m as int, pow2(s as nat) as int);
        }
        q = if m > h || more {
            1
        } else {
            0
        };
    } else {
        let p: u128 = power_of_two(s as u32);
        proof {
            lemma_pow2_pos(s as nat);
        }
        let q0: u128 = m / p;
        let r: u128 = m % p;
        proof {
            vstd::arithmetic::div_mod::lemma_fundamental_div_mod(m as int, p as int);
            let sl = s as nat;
            let rest = (l - s) as nat;
            assert(rest <= 53);
            lemma_pow2_adds(rest, sl);
            lemma_pow2_le(rest, 53);
            assert(q0 < PRECISION_SCALE) by (nonlinear_arith)
                requires
                    p * q0 <= m,
                    m < pow2(rest) * p,
                    pow2(rest) <= PRECISION_SCALE,
                    p > 0,
            ;
        }
        let q1: u64 = q0 as u64;
        q = if r > p - r || (r == p - r && (more || q1 % 2 == 1)) {
            q1 + 1
        } else {
            q1
        };
    }
    assert(q as nat == pack_significand(m as nat, l as nat, t as int, more));
    assert(q <= PRECISION_SCALE);
    let v: u64 = q + e as u64 * HIDDEN;
    if v < INF_MAG {
        v
    } else {
        INF_MAG
    }
}

} // verus!
