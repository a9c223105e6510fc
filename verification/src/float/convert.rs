//! Conversions from and to integers, and rounding to integers.
use vstd::arithmetic::div_mod::lemma_div_multiples_vanish;
use vstd::arithmetic::div_mod::lemma_fundamental_div_mod;
use vstd::arithmetic::div_mod::lemma_fundamental_div_mod_converse;
use vstd::arithmetic::power2::lemma_pow2_adds;
use vstd::arithmetic::power2::lemma_pow2_pos;
use vstd::arithmetic::power2::lemma_pow2_strictly_increases;
use vstd::arithmetic::power2::pow2;
use vstd::prelude::*;

use crate::float::arith::lemma_fields;
use crate::float::arith::lemma_round_zero;
use crate::float::arith::pack_integral;
use crate::float::arith::split;
use crate::float::assemble;
use crate::float::make;
use crate::float::round::power_of_two;
use crate::float::round::round_ratio;
use crate::float::units;
use crate::float::F64;
use crate::float::HIDDEN;
use crate::float::ONE_SCALE;

verus! {

/// The number one in smallest units.
pub open spec fn unity() -> nat {
    pow2(ONE_SCALE as nat)
}

/// The number nearest to the natural number `n`.
#[verifier::opaque]
pub open spec fn count_of(n: nat) -> F64 {
    make(false, round_ratio(n * unity(), 1))
}

/// The largest integer that is not above the number.
#[verifier::opaque]
pub open spec fn floor_of(a: F64) -> F64 {
    if !a.finite() {
        a
    } else {
        let q = a.value() / (unity() as int);
        if q == 0 {
            make(a.sign(), 0)
        } else if q < 0 {
            make(true, round_ratio((-q) as nat * unity(), 1))
        } else {
            make(false, round_ratio(q as nat * unity(), 1))
        }
    }
}

/// The natural number `n`, or the largest index where `n` exceeds it.
pub open spec fn saturated(n: nat) -> usize {
    if n <= usize::MAX {
        n as usize
    } else {
        usize::MAX
    }
}

/// The nearest index, halves going up, saturating; NaN and negative numbers give zero.
#[verifier::opaque]
pub open spec fn nearest_index_of(a: F64) -> usize {
    if a.nan() || a.sign() {
        0
    } else if a.inf() {
        usize::MAX
    } else {
        saturated((2 * units(a.mag()) + unity()) / (2 * unity()))
    }
}

/// The integral part of `s` times two to the power `e` smallest units, and whether a fraction
/// is left.
fn whole_part(s: u64, e: i32) -> (r: (u64, bool))
    requires
        s < 2 * HIDDEN,
        0 <= e < 1074,
    ensures
        r.0 as nat == (s as nat * pow2(e as nat)) / unity(),
        r.1 == ((s as nat * pow2(e as nat)) % unity() != 0),
        r.0 <= s,
{
    let k: u32 = 1074 - e as u32;
    let ghost w: nat = pow2(e as nat);
    let ghost p: nat = pow2(k as nat);
    proof {
        lemma_pow2_adds(e as nat, k as nat);
        lemma_pow2_pos(e as nat);
        lemma_pow2_pos(k as nat);
        assert(unity() == w * p);
    }
    if k >= 64 {
        proof {
            assert(pow2(64) == 0x1_0000_0000_0000_0000) by {
                vstd::arithmetic::power2::lemma2_to64();
            }
            if k > 64 {
                lemma_pow2_strictly_increases(64, k as nat);
            }
            let n = s as nat * w;
            assert(n < w * p) by (nonlinear_arith)
                requires
                    n == s as nat * w,
                    (s as nat) < p,
                    w > 0,
            ;
            assert(n == 0 <==> s == 0) by (nonlinear_arith)
                requires
                    n == s as nat * w,
                    w > 0,
            ;
            vstd::arithmetic::div_mod::lemma_small_mod(n, unity());
            vstd::arithmetic::div_mod::lemma_basic_div(n as int, unity() as int);
        }
        return (0, s != 0);
    }
    let d: u128 = power_of_two(k);
    let q: u128 = s as u128 / d;
    let rem: u128 = s as u128 % d;
    proof {
        lemma_fundamental_div_mod(s as int, d as int);
        let n = s as int * w as int;
        let one = unity() as int;
        let left = rem as int * w as int;
        assert(n == q as int * one + left) by (nonlinear_arith)
            requires
                s as int == d as int * q as int + rem as int,
                n == s as int * w as int,
                one == w as int * d as int,
                left == rem as int * w as int,
        ;
        assert(0 <= left < one) by (nonlinear_arith)
            requires
                0 <= rem < d,
                w > 0,
                one == w as int * d as int,
                left == rem as int * w as int,
        ;
        assert(left == 0 <==> rem == 0) by (nonlinear_arith)
            requires
                w > 0,
                left == rem as int * w as int,
        ;
        lemma_fundamental_div_mod_converse(n, one, q as int, left);
        assert(q <= s) by (nonlinear_arith)
            requires
                s as int == d as int * q as int + rem as int,
                rem >= 0,
                d >= 1,
                q >= 0,
        ;
    }
    (q as u64, rem != 0)
}

/// Integral magnitudes in units of one.
proof fn lemma_integral(s: nat, e: nat)
    requires
        e >= 1074,
    ensures
        s * pow2(e) == (s * pow2((e - 1074) as nat)) * unity(),
        (s * pow2(e)) / unity() == s * pow2((e - 1074) as nat),
{
    lemma_pow2_adds((e - 1074) as nat, 1074);
    lemma_pow2_pos(1074);
    let a = pow2((e - 1074) as nat);
    let one = unity();
    assert(s * (a * one) == (s * a) * one) by (nonlinear_arith);
    lemma_div_multiples_vanish((s * a) as int, one as int);
    assert(one * (s * a) == (s * a) * one) by (nonlinear_arith);
}

/// The sign of an integral quotient.
proof fn lemma_floor_negative(u: nat, one: nat)
    requires
        one > 0,
    ensures
        (-(u as int)) / (one as int) == -((u / one) as int) - (if u % one != 0 {
            1int
        } else {
            0int
        }),
{
    let q = (u / one) as int;
    let r = (u % one) as int;
    lemma_fundamental_div_mod(u as int, one as int);
    if r == 0 {
        assert(-(u as int) == (-q) * (one as int) + 0) by (nonlinear_arith)
            requires
                u as int == one as int * q + r,
                r == 0,
        ;
        lemma_fundamental_div_mod_converse(-(u as int), one as int, -q, 0);
    } else {
        assert(-(u as int) == (-q - 1) * (one as int) + (one as int - r)) by (nonlinear_arith)
            requires
                u as int == one as int * q + r,
        ;
        lemma_fundamental_div_mod_converse(-(u as int), one as int, -q - 1, one as int - r);
    }
}

impl F64 {
    /// The number nearest to `n`.
    pub fn from_usize(n: usize) -> (r: F64)
        ensures
            r == count_of(n as nat),
    {
        proof {
            reveal(count_of);
        }
        if n == 0 {
            proof {
                lemma_round_zero(1);
            }
            return assemble(false, 0);
        }
        let m: u64 = pack_integral(Ghost(n as nat * unity()), n as u128, 1074, false);
        assemble(false, m)
    }

    /// The largest integer that is not above the number.
    pub fn floor(self) -> (r: F64)
        ensures
            r == floor_of(self),
    {
        proof {
            reveal(floor_of);
            lemma_pow2_pos(1074);
        }
        if !self.is_finite() {
            return self;
        }
        let negative: bool = self.is_sign_negative();
        let m: u64 = self.magnitude();
        let ghost u: nat = units(m as nat);
        proof {
            lemma_fields(m as nat);
        }
        if m == 0 {
            return self;
        }
        let (s, e): (u64, i32) = split(m);
        proof {
            lemma_floor_negative(u, unity());
        }
        if e >= 1074 {
            proof {
                lemma_integral(s as nat, e as nat);
                lemma_pow2_pos((e - 1074) as nat);
                let a = pow2((e - 1074) as nat);
                assert(s as nat * a > 0) by (nonlinear_arith)
                    requires
                        s > 0,
                        a > 0,
                ;
                lemma_fundamental_div_mod_converse(u as int, unity() as int, (s as nat * a) as int, 0);
            }
            let r: u64 = pack_integral(Ghost(u), s as u128, e, false);
            return assemble(negative, r);
        }
        let (whole, more): (u64, bool) = whole_part(s, e);
        let q: u64 = if negative && more {
            whole + 1
        } else {
            whole
        };
        if q == 0 {
            return assemble(negative, 0);
        }
        let r: u64 = pack_integral(Ghost(q as nat * unity()), q as u128, 1074, false);
        assemble(negative, r)
    }

    /// The nearest index, halves going up, saturating; NaN and negative numbers give zero.
    pub fn round_to_usize(self) -> (r: usize)
        ensures
            r == nearest_index_of(self),
    {
        proof {
            reveal(nearest_index_of);
            lemma_pow2_pos(1074);
        }
        if self.is_nan() || self.is_sign_negative() {
            return 0;
        }
        if self.is_infinite() {
            return usize::MAX;
        }
        let m: u64 = self.magnitude();
        let (s, e): (u64, i32) = split(m);
        let ghost one: nat = unity();
        let ghost u: nat = units(m as nat);
        if e >= 1074 {
            proof {
                lemma_integral(s as nat, e as nat);
                let a = s as nat * pow2((e - 1074) as nat);
                assert(2 * u + one == a * (2 * one) + one) by (nonlinear_arith)
                    requires
                        u == a * one,
                ;
                lemma_fundamental_div_mod_converse((2 * u + one) as int, (2 * one) as int, a as int, one as int);
            }
            return shifted(s, (e - 1074) as u32);
        }
        let (whole, _more): (u64, bool) = whole_part(s, e);
        let half: bool = at_least_half(s, e);
        let q: u64 = if half {
            whole + 1
        } else {
            whole
        };
        proof {
            let w = whole as int;
            let left = (u % one) as int;
            lemma_fundamental_div_mod(u as int, one as int);
            assert(one as int * w == w * one as int) by (nonlinear_arith);
            let b = if half {
                1int
            } else {
                0int
            };
            let rest = 2 * left + one - b * (2 * one);
            assert(2 * u + one == (w + b) * (2 * one) + rest) by (nonlinear_arith)
                requires
                    u as int == w * one as int + left,
                    rest == 2 * left + one - b * (2 * one),
            ;
            assert(0 <= rest < 2 * one);
            lemma_fundamental_div_mod_converse((2 * u + one) as int, (2 * one) as int, w + b, rest);
        }
        if q <= usize::MAX as u64 {
            q as usize
        } else {
            usize::MAX
        }
    }
}

/// Whether the fraction of `s` times two to the power `e` smallest units is at least one half.
fn at_least_half(s: u64, e: i32) -> (r: bool)
    requires
        s < 2 * HIDDEN,
        0 <= e < 1074,
    ensures
        r == (2 * ((s as nat * pow2(e as nat)) % unity()) >= unity()),
{
    let k: u32 = 1074 - e as u32;
    let ghost w: nat = pow2(e as nat);
    let ghost p: nat = pow2(k as nat);
    let ghost n: nat = s as nat * w;
    proof {
        lemma_pow2_adds(e as nat, k as nat);
        lemma_pow2_pos(e as nat);
        lemma_pow2_pos(k as nat);
        assert(unity() == w * p);
    }
    if k >= 64 {
        proof {
            assert(pow2(64) == 0x1_0000_0000_0000_0000) by {
                vstd::arithmetic::power2::lemma2_to64();
            }
            if k > 64 {
                lemma_pow2_strictly_increases(64, k as nat);
            }
            assert(2 * n < w * p) by (nonlinear_arith)
                requires
                    n == s as nat * w,
                    2 * (s as nat) < p,
                    w > 0,
            ;
            vstd::arithmetic::div_mod::lemma_small_mod(n, unity());
        }
        return false;
    }
    let d: u128 = power_of_two(k);
    let rem: u128 = s as u128 % d;
    proof {
        lemma_fundamental_div_mod(s as int, d as int);
        let q = s as int / d as int;
        let one = unity() as int;
        let left = rem as int * w as int;
        assert(n as int == q * one + left) by (nonlinear_arith)
            requires
                s as int == d as int * q + rem as int,
                n as int == s as int * w as int,
                one == w as int * d as int,
                left == rem as int * w as int,
        ;
        assert(0 <= left < one) by (nonlinear_arith)
            requires
                0 <= rem < d,
                w > 0,
                one == w as int * d as int,
                left == rem as int * w as int,
        ;
        lemma_fundamental_div_mod_converse(n as int, one, q, left);
        assert((2 * left >= one) == (2 * rem >= d)) by (nonlinear_arith)
            requires
                w > 0,
                one == w as int * d as int,
                left == rem as int * w as int,
        ;
    }
    2 * rem >= d
}

/// `s` times two to the power `k`, saturating.
fn shifted(s: u64, k: u32) -> (r: usize)
    requires
        HIDDEN <= s < 2 * HIDDEN,
    ensures
        r == saturated(s as nat * pow2(k as nat)),
{
    if k >= 64 {
        proof {
            assert(pow2(64) == 0x1_0000_0000_0000_0000) by {
                vstd::arithmetic::power2::lemma2_to64();
            }
            if k > 64 {
                lemma_pow2_strictly_increases(64, k as nat);
            }
            let p = pow2(k as nat);
            assert(s as nat * p > 0xffff_ffff_ffff_ffff) by (nonlinear_arith)
                requires
                    s >= 1,
                    p >= 0x1_0000_0000_0000_0000,
            ;
        }
        return usize::MAX;
    }
    let p: u128 = power_of_two(k);
    proof {
        assert(pow2(64) == 0x1_0000_0000_0000_0000) by {
            vstd::arithmetic::power2::lemma2_to64();
        }
        lemma_pow2_strictly_increases(k as nat, 64);
        assert(s as nat * (p as nat) < 0x20_0000_0000_0000 * 0x1_0000_0000_0000_0000) by (nonlinear_arith)
            requires
                s < 0x20_0000_0000_0000,
                p < 0x1_0000_0000_0000_0000,
        ;
    }
    let v: u128 = s as u128 * p;
    if v <= usize::MAX as u128 {
        v as usize
    } else {
        usize::MAX
    }
}

} // verus!
