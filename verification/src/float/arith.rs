//! Correctly rounded addition, subtraction, multiplication, division and square root.
use vstd::arithmetic::power2::lemma2_to64;
use vstd::arithmetic::power2::lemma_pow2_adds;
use vstd::arithmetic::power2::lemma_pow2_pos;
use vstd::arithmetic::power2::lemma_pow2_strictly_increases;
use vstd::arithmetic::power2::lemma_pow2_unfold;
use vstd::arithmetic::power2::pow2;
use vstd::prelude::*;

use crate::consts::zero;
use crate::float::assemble;
use crate::float::expo;
use crate::float::make;
use crate::float::order::below;
use crate::float::quiet_nan;
use crate::float::round::bit_length;
use crate::float::round::brackets_ratio;
use crate::float::round::encode;
use crate::float::round::has_length;
use crate::float::round::lemma_pack_ratio;
use crate::float::round::lemma_pack_root;
use crate::float::round::offset;
use crate::float::round::pack;
use crate::float::round::pack_exponent;
use crate::float::round::pack_significand;
use crate::float::round::power_of_two;
use crate::float::round::round_ratio;
use crate::float::round::round_root;
use crate::float::sig;
use crate::float::units;
use crate::float::F64;
use crate::float::HIDDEN;
use crate::float::INF_MAG;
use crate::float::NAN_MAG;
use crate::float::ONE_SCALE;

verus! {

/// The sum of two numbers.
#[verifier::opaque]
pub open spec fn sum_of(a: F64, b: F64) -> F64 {
    if a.nan() || b.nan() || (a.inf() && b.inf() && a.sign() != b.sign()) {
        quiet_nan()
    } else if a.inf() {
        a
    } else if b.inf() {
        b
    } else {
        let s = a.value() + b.value();
        if s == 0 {
            make(a.sign() && b.sign(), 0)
        } else if s < 0 {
            make(true, round_ratio((-s) as nat, 1))
        } else {
            make(false, round_ratio(s as nat, 1))
        }
    }
}

/// The product of two numbers.
#[verifier::opaque]
pub open spec fn product_of(a: F64, b: F64) -> F64 {
    let negative = a.sign() != b.sign();
    if a.nan() || b.nan() || (a.inf() && b.zero()) || (a.zero() && b.inf()) {
        quiet_nan()
    } else if a.inf() || b.inf() {
        make(negative, INF_MAG as nat)
    } else {
        make(negative, round_ratio(units(a.mag()) * units(b.mag()), pow2(ONE_SCALE as nat)))
    }
}

/// The quotient of two numbers.
#[verifier::opaque]
pub open spec fn quotient_of(a: F64, b: F64) -> F64 {
    let negative = a.sign() != b.sign();
    if a.nan() || b.nan() || (a.inf() && b.inf()) || (a.zero() && b.zero()) {
        quiet_nan()
    } else if a.inf() || b.zero() {
        make(negative, INF_MAG as nat)
    } else if b.inf() {
        make(negative, 0)
    } else {
        make(negative, round_ratio(units(a.mag()) * pow2(ONE_SCALE as nat), units(b.mag())))
    }
}

/// The square root of a number.
#[verifier::opaque]
pub open spec fn root_of(a: F64) -> F64 {
    if a.nan() || (a.sign() && !a.zero()) {
        quiet_nan()
    } else if a.inf() || a.zero() {
        a
    } else {
        make(false, round_root(units(a.mag()) * pow2(ONE_SCALE as nat)))
    }
}

/// The number with the opposite sign.
#[verifier::opaque]
pub open spec fn negation_of(a: F64) -> F64 {
    make(!a.sign(), a.mag())
}

/// The number with the sign bit cleared.
#[verifier::opaque]
pub open spec fn magnitude_of(a: F64) -> F64 {
    make(false, a.mag())
}

/// The magnitude of `a` with the sign of `b`.
#[verifier::opaque]
pub open spec fn with_sign_of(a: F64, b: F64) -> F64 {
    make(b.sign(), a.mag())
}

impl F64 {
    /// `a + b` in specifications.
    pub open spec fn spec_add(self, rhs: F64) -> F64 {
        sum_of(self, rhs)
    }

    /// `a - b` in specifications.
    pub open spec fn spec_sub(self, rhs: F64) -> F64 {
        sum_of(self, negation_of(rhs))
    }

    /// `a * b` in specifications.
    pub open spec fn spec_mul(self, rhs: F64) -> F64 {
        product_of(self, rhs)
    }

    /// `a / b` in specifications.
    pub open spec fn spec_euclidean_or_real_div(self, rhs: F64) -> F64 {
        quotient_of(self, rhs)
    }

    /// `-a` in specifications.
    pub open spec fn spec_neg(self) -> F64 {
        negation_of(self)
    }
}

/// The bounds on significands and exponents.
pub(crate) proof fn lemma_fields(m: nat)
    requires
        m < INF_MAG,
    ensures
        sig(m) < 2 * HIDDEN,
        expo(m) <= 2045,
        sig(m) == 0 <==> m == 0,
        units(m) == 0 <==> m == 0,
        expo(m) > 0 ==> sig(m) >= HIDDEN,
{
    lemma_pow2_pos(expo(m));
    let s = sig(m);
    let p = pow2(expo(m));
    assert(s * p == 0 <==> s == 0) by (nonlinear_arith)
        requires
            p > 0,
            s >= 0,
    ;
}

/// The significand and the exponent of a finite magnitude.
pub(crate) fn split(m: u64) -> (r: (u64, i32))
    requires
        m < INF_MAG,
    ensures
        r.0 as nat == sig(m as nat),
        r.1 as nat == expo(m as nat),
        0 <= r.1 <= 2045,
        r.0 < 2 * HIDDEN,
        r.0 == 0 <==> m == 0,
        r.1 > 0 ==> r.0 >= HIDDEN,
{
    proof {
        lemma_fields(m as nat);
    }
    if m < HIDDEN {
        (m, 0)
    } else {
        (m % HIDDEN + HIDDEN, (m / HIDDEN) as i32 - 1)
    }
}

fn nan() -> (r: F64)
    ensures
        r == quiet_nan(),
{
    F64 { bits: NAN_MAG }
}

/// A zero ratio rounds to zero.
pub proof fn lemma_round_zero(d: nat)
    requires
        d > 0,
    ensures
        round_ratio(0, d) == 0,
{
    lemma2_to64();
    assert(d * pow2(0) == d);
}

/// The leading bits and exponent of an exact integral sum bracket it.
proof fn lemma_brackets_integral(n: nat, m: nat, t: nat, more: bool)
    requires
        if more {
            m * pow2(t) < n < (m + 1) * pow2(t)
        } else {
            n == m * pow2(t)
        },
    ensures
        brackets_ratio(n, 1, m, t as int, more),
{
    lemma_pow2_adds(t, 1200);
    lemma_pow2_pos(1200);
    let big = pow2(1200);
    let w = pow2(t);
    let unit = 1 * pow2(offset(t as int));
    assert(unit == w * big);
    assert(m * unit == (m * w) * big) by (nonlinear_arith)
        requires
            unit == w * big,
    ;
    assert((m + 1) * unit == ((m + 1) * w) * big) by (nonlinear_arith)
        requires
            unit == w * big,
    ;
    let x = n * big;
    if more {
        let lo = m * w;
        let hi = (m + 1) * w;
        assert(lo * big < x < hi * big) by (nonlinear_arith)
            requires
                lo < n < hi,
                big > 0,
                x == n * big,
        ;
    }
}

/// Rounds `m` units of two to the power `t`, and a fraction of a unit more exactly when `more`
/// holds, which is exactly `n` smallest units.
pub(crate) fn pack_integral(n: Ghost<nat>, m: u128, t: i32, more: bool) -> (r: u64)
    requires
        m > 0,
        0 <= t <= 3200,
        if more {
            m as nat * pow2(t as nat) < n@ < (m as nat + 1) * pow2(t as nat)
        } else {
            n@ == m as nat * pow2(t as nat)
        },
        more ==> m >= 2 * HIDDEN,
    ensures
        r as nat == round_ratio(n@, 1),
        r <= INF_MAG,
{
    let r: u64 = pack(m, t, more);
    proof {
        lemma_brackets_integral(n@, m as nat, t as nat, more);
        let l = choose|l: nat| #[trigger]
            has_length(m as nat, l) && r == encode(
                pack_significand(m as nat, l, t as int, more),
                pack_exponent(l, t as int),
            );
        if more {
            lemma_long(m as nat, l);
        }
        lemma_pack_ratio(n@, 1, m as nat, l, t as int, more);
    }
    r
}

/// A number of at least two to the power 53 has at least 54 bits.
proof fn lemma_long(m: nat, l: nat)
    requires
        m >= 2 * HIDDEN,
        has_length(m, l),
    ensures
        l >= 54,
{
    if l <= 53 {
        assert(pow2(53) == 2 * HIDDEN) by {
            vstd::arithmetic::power2::lemma2_to64_rest();
        }
        if l < 53 {
            lemma_pow2_strictly_increases(l, 53);
        }
    }
}

/// The sum of two finite numbers, the first with the larger exponent.
fn add_ordered(a: F64, b: F64) -> (r: F64)
    requires
        a.finite(),
        b.finite(),
        expo(a.mag()) >= expo(b.mag()),
    ensures
        r == sum_of(a, b),
{
    proof {
        reveal(sum_of);
    }
    let na: bool = a.is_sign_negative();
    let nb: bool = b.is_sign_negative();
    let (sa, ea): (u64, i32) = split(a.magnitude());
    let (sb, eb): (u64, i32) = split(b.magnitude());
    let ghost s: int = a.value() + b.value();
    let ghost ua: nat = units(a.mag());
    let ghost ub: nat = units(b.mag());
    let ghost wb: nat = pow2(eb as nat);
    proof {
        lemma_fields(a.mag());
        lemma_fields(b.mag());
        lemma_pow2_pos(eb as nat);
    }
    if ea - eb <= 56 {
        let p: u128 = power_of_two((ea - eb) as u32);
        proof {
            lemma_pow2_adds(eb as nat, (ea - eb) as nat);
            assert(pow2(56) == 0x100_0000_0000_0000) by {
                vstd::arithmetic::power2::lemma2_to64_rest();
            }
            if ea - eb < 56 {
                lemma_pow2_strictly_increases((ea - eb) as nat, 56);
            }
            assert(sa as nat * p as nat <= 0x20_0000_0000_0000 * 0x100_0000_0000_0000) by (nonlinear_arith)
                requires
                    sa <= 0x20_0000_0000_0000,
                    p <= 0x100_0000_0000_0000,
            ;
        }
        let x: u128 = sa as u128 * p;
        let y: u128 = sb as u128;
        assert(ua == x as nat * wb) by (nonlinear_arith)
            requires
                ua == sa as nat * pow2(ea as nat),
                pow2(ea as nat) == wb * p as nat,
                x as nat == sa as nat * p as nat,
        ;
        assert(ub == y as nat * wb);
        if na == nb {
            let m: u128 = x + y;
            assert(ua + ub == m as nat * wb) by (nonlinear_arith)
                requires
                    ua == x as nat * wb,
                    ub == y as nat * wb,
                    m == x + y,
            ;
            if m == 0 {
                assemble(na, 0)
            } else {
                assert(m as nat * wb > 0) by (nonlinear_arith)
                    requires
                        m > 0,
                        wb > 0,
                ;
                let r: u64 = pack_integral(Ghost((ua + ub) as nat), m, eb, false);
                assemble(na, r)
            }
        } else if x > y {
            let m: u128 = x - y;
            assert(ua - ub == m as nat * wb) by (nonlinear_arith)
                requires
                    ua == x as nat * wb,
                    ub == y as nat * wb,
                    m == x - y,
            ;
            assert(m as nat * wb > 0) by (nonlinear_arith)
                requires
                    m > 0,
                    wb > 0,
            ;
            let r: u64 = pack_integral(Ghost((ua - ub) as nat), m, eb, false);
            assemble(na, r)
        } else if y > x {
            let m: u128 = y - x;
            assert(ub - ua == m as nat * wb) by (nonlinear_arith)
                requires
                    ua == x as nat * wb,
                    ub == y as nat * wb,
                    m == y - x,
            ;
            assert(m as nat * wb > 0) by (nonlinear_arith)
                requires
                    m > 0,
                    wb > 0,
            ;
            let r: u64 = pack_integral(Ghost((ub - ua) as nat), m, eb, false);
            assemble(nb, r)
        } else {
            assemble(false, 0)
        }
    } else {
        // The second number is less than an eighth of the first one's last bit.
        let x: u128 = sa as u128 * 8;
        let t: i32 = ea - 3;
        let ghost w: nat = pow2(t as nat);
        proof {
            lemma_pow2_adds(t as nat, 3);
            lemma_pow2_pos(t as nat);
            assert(pow2(3) == 8) by {
                lemma2_to64();
            }
            assert(ua == x as nat * w) by (nonlinear_arith)
                requires
                    ua == sa as nat * pow2(ea as nat),
                    pow2(ea as nat) == w * 8,
                    x as nat == sa as nat * 8,
            ;
            assert(ub < w) by {
                lemma_pow2_adds(eb as nat, 53);
                assert(pow2(53) == 2 * HIDDEN) by {
                    vstd::arithmetic::power2::lemma2_to64_rest();
                }
                lemma_pow2_strictly_increases((eb + 53) as nat, t as nat);
                assert(ub < wb * pow2(53)) by (nonlinear_arith)
                    requires
                        ub == sb as nat * wb,
                        (sb as nat) < pow2(53),
                        wb > 0,
                ;
            }
            assert((x as nat + 1) * w == x as nat * w + w) by (nonlinear_arith);
            assert((x as nat - 1) * w == x as nat * w - w) by (nonlinear_arith);
            assert(x as nat * w >= w) by (nonlinear_arith)
                requires
                    x >= 1,
            ;
        }
        if sb == 0 {
            let r: u64 = pack_integral(Ghost(ua), x, t, false);
            assemble(na, r)
        } else if na == nb {
            let r: u64 = pack_integral(Ghost((ua + ub) as nat), x, t, true);
            assemble(na, r)
        } else {
            let r: u64 = pack_integral(Ghost((ua - ub) as nat), (x - 1) as u128, t, true);
            assemble(na, r)
        }
    }
}

impl vstd::std_specs::ops::AddSpecImpl for F64 {
    open spec fn obeys_add_spec() -> bool {
        true
    }

    open spec fn add_req(self, rhs: F64) -> bool {
        true
    }

    open spec fn add_spec(self, rhs: F64) -> F64 {
        sum_of(self, rhs)
    }
}

impl core::ops::Add for F64 {
    type Output = F64;

    fn add(self, rhs: F64) -> (r: F64) {
    proof {
        reveal(sum_of);
    }
        if self.is_nan() || rhs.is_nan() {
            return nan();
        }
        if self.is_infinite() {
            if rhs.is_infinite() && self.is_sign_negative() != rhs.is_sign_negative() {
                return nan();
            }
            return self;
        }
        if rhs.is_infinite() {
            return rhs;
        }
        let (_, ea): (u64, i32) = split(self.magnitude());
        let (_, eb): (u64, i32) = split(rhs.magnitude());
        if ea >= eb {
            add_ordered(self, rhs)
        } else {
            add_ordered(rhs, self)
        }
    }
}

impl F64 {
    /// The number with the opposite sign.
    pub fn negated(self) -> (r: F64)
        ensures
            r == -self,
    {
    proof {
        reveal(negation_of);
    }
        assemble(!self.is_sign_negative(), self.magnitude())
    }

    /// The number with the sign bit cleared.
    pub fn abs(self) -> (r: F64)
        ensures
            r == magnitude_of(self),
    {
    proof {
        reveal(magnitude_of);
    }
        assemble(false, self.magnitude())
    }

    /// The magnitude of the number with the sign of `sign`.
    pub fn copysign(self, sign: F64) -> (r: F64)
        ensures
            r == with_sign_of(self, sign),
    {
    proof {
        reveal(with_sign_of);
    }
        assemble(sign.is_sign_negative(), self.magnitude())
    }
}

impl vstd::std_specs::ops::SubSpecImpl for F64 {
    open spec fn obeys_sub_spec() -> bool {
        true
    }

    open spec fn sub_req(self, rhs: F64) -> bool {
        true
    }

    open spec fn sub_spec(self, rhs: F64) -> F64 {
        sum_of(self, negation_of(rhs))
    }
}

impl core::ops::Sub for F64 {
    type Output = F64;

    fn sub(self, rhs: F64) -> (r: F64) {
        self + rhs.negated()
    }
}

/// Rounds `m` units of two to the power `t`, and a fraction of a unit more exactly when `more`
/// holds, which is exactly `n / d` smallest units.
fn pack_ratio(n: Ghost<nat>, d: Ghost<nat>, m: u128, t: i32, more: bool) -> (r: u64)
    requires
        m > 0,
        -1200 <= t <= 3200,
        d@ > 0,
        brackets_ratio(n@, d@, m as nat, t as int, more),
        more ==> m >= 2 * HIDDEN,
    ensures
        r as nat == round_ratio(n@, d@),
        r <= INF_MAG,
{
    let r: u64 = pack(m, t, more);
    proof {
        let l = choose|l: nat| #[trigger]
            has_length(m as nat, l) && r == encode(
                pack_significand(m as nat, l, t as int, more),
                pack_exponent(l, t as int),
            );
        if more {
            lemma_long(m as nat, l);
        }
        lemma_pack_ratio(n@, d@, m as nat, l, t as int, more);
    }
    r
}

impl vstd::std_specs::ops::MulSpecImpl for F64 {
    open spec fn obeys_mul_spec() -> bool {
        true
    }

    open spec fn mul_req(self, rhs: F64) -> bool {
        true
    }

    open spec fn mul_spec(self, rhs: F64) -> F64 {
        product_of(self, rhs)
    }
}

impl core::ops::Mul for F64 {
    type Output = F64;

    fn mul(self, rhs: F64) -> (r: F64) {
    proof {
        reveal(product_of);
    }
        let negative: bool = self.is_sign_negative() != rhs.is_sign_negative();
        let ma: u64 = self.magnitude();
        let mb: u64 = rhs.magnitude();
        if ma > INF_MAG || mb > INF_MAG {
            return nan();
        }
        if ma == INF_MAG || mb == INF_MAG {
            if ma == 0 || mb == 0 {
                return nan();
            }
            return assemble(negative, INF_MAG);
        }
        let ghost one: nat = pow2(ONE_SCALE as nat);
        proof {
            lemma_pow2_pos(ONE_SCALE as nat);
            lemma_fields(ma as nat);
            lemma_fields(mb as nat);
        }
        if ma == 0 || mb == 0 {
            proof {
                lemma_round_zero(one);
                let x = units(ma as nat);
                let y = units(mb as nat);
                assert(x * y == 0) by (nonlinear_arith)
                    requires
                        x == 0 || y == 0,
                ;
            }
            return assemble(negative, 0);
        }
        let (sa, ea): (u64, i32) = split(ma);
        let (sb, eb): (u64, i32) = split(mb);
        assert(0 < sa * sb < 0x100_0000_0000_0000_0000_0000_0000_0000) by (nonlinear_arith)
            requires
                0 < sa <= 0x20_0000_0000_0000,
                0 < sb <= 0x20_0000_0000_0000,
        ;
        let m: u128 = sa as u128 * sb as u128;
        let t: i32 = ea + eb - 1074;
        let ghost n: nat = units(ma as nat) * units(mb as nat);
        proof {
            let big = pow2(1200);
            let x = pow2(ea as nat);
            let y = pow2(eb as nat);
            let w = pow2(offset(t as int));
            lemma_pow2_adds(ea as nat, eb as nat);
            lemma_pow2_adds((ea + eb) as nat, 1200);
            lemma_pow2_adds(ONE_SCALE as nat, offset(t as int));
            assert((x * y) * big == one * w);
            assert(n * big == m as nat * (one * w)) by (nonlinear_arith)
                requires
                    n == (sa as nat * x) * (sb as nat * y),
                    m as nat == sa as nat * sb as nat,
                    (x * y) * big == one * w,
            ;
        }
        let r: u64 = pack_ratio(Ghost(n), Ghost(one), m, t, false);
        assemble(negative, r)
    }
}

/// Scales a significand up to the full length; the second result is the number of doublings.
fn normalize(s: u64) -> (r: (u64, i32))
    requires
        0 < s < 2 * HIDDEN,
    ensures
        0 <= r.1 <= 52,
        r.0 as nat == s as nat * pow2(r.1 as nat),
        HIDDEN <= r.0 < 2 * HIDDEN,
{
    let l: u32 = bit_length(s as u128);
    proof {
        assert(pow2(53) == 2 * HIDDEN && pow2(52) == HIDDEN) by {
            vstd::arithmetic::power2::lemma2_to64_rest();
        }
        if l > 53 {
            if l > 54 {
                lemma_pow2_strictly_increases(53, (l - 1) as nat);
            }
            assert(false);
        }
    }
    let k: u32 = 53 - l;
    let p: u128 = power_of_two(k);
    proof {
        lemma_pow2_pos(k as nat);
        lemma_pow2_adds((l - 1) as nat, k as nat);
        lemma_pow2_adds(l as nat, k as nat);
        assert((l - 1) + k == 52);
        let a = pow2((l - 1) as nat);
        let b = pow2(l as nat);
        assert(a * p as nat <= s as nat * p as nat && s as nat * (p as nat) < b * p as nat) by (nonlinear_arith)
            requires
                a <= s as nat,
                (s as nat) < b,
                p > 0,
        ;
    }
    ((s as u128 * p) as u64, k as i32)
}

impl vstd::std_specs::ops::DivSpecImpl for F64 {
    open spec fn obeys_div_spec() -> bool {
        true
    }

    open spec fn div_req(self, rhs: F64) -> bool {
        true
    }

    open spec fn div_spec(self, rhs: F64) -> F64 {
        quotient_of(self, rhs)
    }
}

impl core::ops::Div for F64 {
    type Output = F64;

    fn div(self, rhs: F64) -> (r: F64) {
    proof {
        reveal(quotient_of);
    }
        let negative: bool = self.is_sign_negative() != rhs.is_sign_negative();
        let ma: u64 = self.magnitude();
        let mb: u64 = rhs.magnitude();
        if ma > INF_MAG || mb > INF_MAG {
            return nan();
        }
        if ma == INF_MAG {
            if mb == INF_MAG {
                return nan();
            }
            return assemble(negative, INF_MAG);
        }
        if mb == 0 {
            if ma == 0 {
                return nan();
            }
            return assemble(negative, INF_MAG);
        }
        if mb == INF_MAG {
            return assemble(negative, 0);
        }
        let ghost one: nat = pow2(ONE_SCALE as nat);
        let ghost n: nat = units(ma as nat) * one;
        let ghost d: nat = units(mb as nat);
        proof {
            lemma_fields(ma as nat);
            lemma_fields(mb as nat);
        }
        if ma == 0 {
            proof {
                lemma_round_zero(d);
            }
            return assemble(negative, 0);
        }
        let (s0, ea): (u64, i32) = split(ma);
        let (sb, eb): (u64, i32) = split(mb);
        let (sa, k): (u64, i32) = normalize(s0);
        assert(sa * 0x1_0000_0000_0000_0000 < 0x1_0000_0000_0000_0000_0000_0000_0000_0000) by (nonlinear_arith)
            requires
                sa < 0x20_0000_0000_0000,
        ;
        let num: u128 = sa as u128 * 0x1_0000_0000_0000_0000;
        let den: u128 = sb as u128;
        let m: u128 = num / den;
        let rem: u128 = num % den;
        let t: i32 = ea - k - eb + 1010;
        proof {
            vstd::arithmetic::div_mod::lemma_fundamental_div_mod(num as int, den as int);
            assert(num == m * den + rem) by (nonlinear_arith)
                requires
                    num == den * m + rem,
            ;
            assert(m >= 2 * HIDDEN) by (nonlinear_arith)
                requires
                    num == m * den + rem,
                    rem < den,
                    den <= 0x20_0000_0000_0000,
                    num >= 0x10_0000_0000_0000 * 0x1_0000_0000_0000_0000,
            ;
            let big = pow2(1200);
            let w = pow2((ea - k + 2210) as nat);
            let unit = d * pow2(offset(t as int));
            lemma_pow2_pos((ea - k + 2210) as nat);
            assert(unit == den as nat * w) by {
                lemma_pow2_adds(eb as nat, offset(t as int));
                assert(eb as nat + offset(t as int) == (ea - k + 2210) as nat);
                let a = pow2(eb as nat);
                let b = pow2(offset(t as int));
                assert((den as nat * a) * b == den as nat * (a * b)) by (nonlinear_arith);
            }
            assert(num as nat * w == n * big) by {
                let pk = pow2(k as nat);
                let pe = pow2(ea as nat);
                assert(pow2(64) == 0x1_0000_0000_0000_0000) by {
                    lemma2_to64();
                }
                lemma_pow2_adds(k as nat, 64);
                lemma_pow2_adds((k + 64) as nat, (ea - k + 2210) as nat);
                assert((k + 64) as nat + (ea - k + 2210) as nat == (ea + 2274) as nat);
                lemma_pow2_adds(ea as nat, ONE_SCALE as nat);
                lemma_pow2_adds((ea + 1074) as nat, 1200);
                assert((pk * pow2(64)) * w == (pe * one) * big);
                assert(num as nat * w == n * big) by (nonlinear_arith)
                    requires
                        num as nat == (s0 as nat * pk) * pow2(64),
                        n == (s0 as nat * pe) * one,
                        (pk * pow2(64)) * w == (pe * one) * big,
                ;
            }
            let r = rem as nat;
            assert(num as nat * w == m as nat * unit + r * w) by (nonlinear_arith)
                requires
                    num == m * den + rem,
                    r == rem as nat,
                    unit == den as nat * w,
            ;
            assert((m as nat + 1) * unit == m as nat * unit + unit) by (nonlinear_arith);
            assert(r * w < unit) by (nonlinear_arith)
                requires
                    r < den as nat,
                    unit == den as nat * w,
                    w > 0,
            ;
            assert(r == 0 <==> r * w == 0) by (nonlinear_arith)
                requires
                    w > 0,
            ;
        }
        let r: u64 = pack_ratio(Ghost(n), Ghost(d), m, t, rem != 0);
        assemble(negative, r)
    }
}

/// The integral part of the square root of `m`.
fn integer_root(m: u128) -> (r: u64)
    requires
        m < 0x1_0000_0000_0000_0000_0000_0000_0000,
    ensures
        r * r <= m < (r + 1) * (r + 1),
        r < 0x100_0000_0000_0000,
{
    let mut r: u64 = 0;
    let mut b: u64 = 0x100_0000_0000_0000;
    let mut j: u32 = 56;
    proof {
        assert(pow2(56) == 0x100_0000_0000_0000) by {
            vstd::arithmetic::power2::lemma2_to64_rest();
        }
    }
    while j > 0
        invariant
            j <= 56,
            b as nat == pow2(j as nat),
            r + b <= 0x100_0000_0000_0000,
            r * r <= m < (r + b) * (r + b),
        decreases j,
    {
        proof {
            lemma_pow2_unfold(j as nat);
            lemma_pow2_pos((j - 1) as nat);
        }
        b = b / 2;
        j = j - 1;
        let c: u64 = r + b;
        assert(c * c <= 0x100_0000_0000_0000 * 0x100_0000_0000_0000) by (nonlinear_arith)
            requires
                c <= 0x100_0000_0000_0000,
        ;
        if c as u128 * c as u128 <= m {
            r = c;
        }
    }
    proof {
        lemma2_to64();
    }
    r
}

impl F64 {
    /// The square root of the number.
    pub fn sqrt(self) -> (r: F64)
        ensures
            r == root_of(self),
    {
    proof {
        reveal(root_of);
    }
        let ma: u64 = self.magnitude();
        if ma > INF_MAG || (self.is_sign_negative() && ma != 0) {
            return nan();
        }
        if ma == INF_MAG || ma == 0 {
            return self;
        }
        let ghost one: nat = pow2(ONE_SCALE as nat);
        let ghost n: nat = units(ma as nat) * one;
        proof {
            lemma_fields(ma as nat);
        }
        let (s0, ea): (u64, i32) = split(ma);
        let (sa, k): (u64, i32) = normalize(s0);
        let x: i32 = ea - k + 1074;
        let odd: bool = x % 2 == 1;
        let m0: u64 = if odd {
            sa * 2
        } else {
            sa
        };
        let x0: i32 = if odd {
            x - 1
        } else {
            x
        };
        assert(m0 * 0x400_0000_0000_0000 < 0x1_0000_0000_0000_0000_0000_0000_0000) by (nonlinear_arith)
            requires
                m0 < 0x40_0000_0000_0000,
        ;
        let m: u128 = m0 as u128 * 0x400_0000_0000_0000;
        let t: i32 = (x0 - 58) / 2;
        let root: u64 = integer_root(m);
        let more: bool = root as u128 * root as u128 != m;
        assert(root >= 2 * HIDDEN) by (nonlinear_arith)
            requires
                m < (root + 1) * (root + 1),
                m >= 0x10_0000_0000_0000 * 0x400_0000_0000_0000,
                root >= 0,
        ;
        let r: u64 = pack(root as u128, t, more);
        proof {
            let w = pow2(t as nat);
            let unit = w * w;
            assert(n == m as nat * unit) by {
                lemma_pow2_adds(t as nat, t as nat);
                assert((t + t) as nat == (x0 - 58) as nat);
                assert(pow2(58) == 0x400_0000_0000_0000 && pow2(1) == 2 && pow2(0) == 1) by {
                    vstd::arithmetic::power2::lemma2_to64_rest();
                    lemma2_to64();
                }
                lemma_pow2_adds(58, (x0 - 58) as nat);
                let par: nat = if odd { 1 } else { 0 };
                lemma_pow2_adds(par, x0 as nat);
                lemma_pow2_adds(k as nat, x as nat);
                lemma_pow2_adds(ea as nat, ONE_SCALE as nat);
                assert(k as nat + x as nat == ea as nat + ONE_SCALE as nat);
                let pk = pow2(k as nat);
                let pe = pow2(ea as nat);
                let pp = pow2(par);
                let c = pow2(58);
                assert(pk * (pp * (c * unit)) == pe * one);
                assert(m0 as nat == sa as nat * pp);
                assert(n == m as nat * unit) by (nonlinear_arith)
                    requires
                        n == (s0 as nat * pe) * one,
                        m as nat == m0 as nat * c,
                        m0 as nat == sa as nat * pp,
                        sa as nat == s0 as nat * pk,
                        pk * (pp * (c * unit)) == pe * one,
                ;
            }
            lemma_pow2_pos(t as nat);
            assert(unit > 0) by (nonlinear_arith)
                requires
                    w > 0,
                    unit == w * w,
            ;
            let rr = root as nat;
            let mm = m as nat;
            assert(if more {
                rr * rr * unit < mm * unit < (rr + 1) * (rr + 1) * unit
            } else {
                mm * unit == rr * rr * unit
            }) by (nonlinear_arith)
                requires
                    rr * rr <= mm < (rr + 1) * (rr + 1),
                    more == (rr * rr != mm),
                    unit > 0,
            ;
            let l = choose|l: nat| #[trigger]
                has_length(rr, l) && r == encode(
                    pack_significand(rr, l, t as int, more),
                    pack_exponent(l, t as int),
                );
            lemma_long(rr, l);
            lemma_pack_root(n, rr, l, t as nat, more);
        }
        assemble(false, r)
    }
}

/// Sums do not depend on the order of the terms.
pub proof fn lemma_sum_commutes(a: F64, b: F64)
    ensures
        a + b == b + a,
{
    reveal(sum_of);
}

/// Products do not depend on the order of the factors.
pub proof fn lemma_product_commutes(a: F64, b: F64)
    ensures
        a * b == b * a,
{
    reveal(product_of);
    let x = units(a.mag());
    let y = units(b.mag());
    assert(x * y == y * x) by (nonlinear_arith);
}

/// The product of a positive finite number and a number with a clear sign bit has one, too.
pub proof fn lemma_product_sign(a: F64, b: F64)
    requires
        a.finite(),
        !a.zero(),
        !a.sign(),
        !b.nan(),
        !b.sign(),
    ensures
        !(a * b).nan(),
        !(a * b).sign(),
{
    reveal(product_of);
}

/// Squares of numbers are numbers with a clear sign bit.
pub proof fn lemma_square_sign(a: F64)
    requires
        !a.nan(),
    ensures
        !(a * a).nan(),
        !(a * a).sign(),
{
    reveal(product_of);
}

/// A finite number minus itself is zero; any other difference of a number from itself is NaN.
pub proof fn lemma_self_difference(a: F64)
    ensures
        a.finite() ==> a - a == zero(),
        !a.finite() ==> (a - a).nan(),
{
    reveal(sum_of);
    reveal(negation_of);
}

/// The product with a finite number other than zero is NaN for NaN only.
pub proof fn lemma_product_real(a: F64, b: F64)
    requires
        a.finite(),
        !a.zero(),
        !b.nan(),
    ensures
        !(a * b).nan(),
        !(b * a).nan(),
{
    reveal(product_of);
}

/// The quotient by a finite number other than zero is NaN for NaN only.
pub proof fn lemma_quotient_real(a: F64, b: F64)
    requires
        !a.nan(),
        b.finite(),
        !b.zero(),
    ensures
        !(a / b).nan(),
{
    reveal(quotient_of);
}

/// The square root of a number above zero is a number.
pub proof fn lemma_root_real(a: F64)
    requires
        a > zero(),
    ensures
        !root_of(a).nan(),
{
    reveal(root_of);
    reveal(below);
}

/// Zero plus the square of zero is zero.
pub proof fn lemma_zero_square()
    ensures
        zero() + zero() * zero() == zero(),
{
    reveal(sum_of);
    reveal(product_of);
    lemma_pow2_pos(ONE_SCALE as nat);
    lemma_round_zero(pow2(ONE_SCALE as nat));
    let p = pow2(expo(0));
    assert(sig(0) * p == 0) by (nonlinear_arith)
        requires
            sig(0) == 0,
    ;
    let u = units(0);
    assert(u * u == 0) by (nonlinear_arith)
        requires
            u == 0,
    ;
    assert(zero().mag() == 0);
    assert(zero() * zero() == zero());
}

/// NaN stays NaN in sums and products.
pub proof fn lemma_nan_stays(a: F64, b: F64)
    requires
        a.nan(),
    ensures
        (a + b).nan(),
        (b + a).nan(),
        (a * b).nan(),
{
    reveal(sum_of);
    reveal(product_of);
}

/// Sums, products and quotients of numbers with clear sign bits have one, too.
pub proof fn lemma_sign_stays(a: F64, b: F64)
    requires
        !a.sign(),
        !b.sign(),
    ensures
        !(a + b).sign(),
        !(a * b).sign(),
        !(a / b).sign(),
{
    reveal(sum_of);
    reveal(product_of);
    reveal(quotient_of);
}

/// Square roots of numbers with a clear sign bit have one, too.
pub proof fn lemma_root_sign(a: F64)
    requires
        !a.sign(),
    ensures
        !root_of(a).sign(),
{
    reveal(root_of);
}

/// Sums and differences of zeros are zeros, and so are products of a zero and a finite number.
pub proof fn lemma_zero_stays(a: F64, b: F64)
    requires
        a.zero(),
        b.finite(),
    ensures
        b.zero() ==> (a + b).zero(),
        b.zero() ==> (a - b).zero(),
        (a * b).zero(),
        (b * a).zero(),
{
    reveal(sum_of);
    reveal(product_of);
    reveal(negation_of);
    lemma_fields(0);
    lemma_pow2_pos(ONE_SCALE as nat);
    lemma_round_zero(pow2(ONE_SCALE as nat));
    let x = units(a.mag());
    let y = units(b.mag());
    assert(x * y == 0 && y * x == 0) by (nonlinear_arith)
        requires
            x == 0,
    ;
}

} // verus!
