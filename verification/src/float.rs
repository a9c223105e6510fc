//! IEEE 754 binary64 numbers as plain bit patterns.
//!
//! A number is held by its 64 bits.  The bit patterns below the one of `+inf`, read as
//! integers, are ordered like the magnitudes that they stand for, and every finite number is an
//! integral multiple of the smallest positive one.  The mathematical model uses both facts:
//! magnitudes are natural numbers (`mag`), and the exact value of a finite number is an integer
//! count of smallest units (`value`).
use vstd::arithmetic::power2::pow2;
use vstd::prelude::*;

pub mod arith;
pub mod calculus;
pub mod convert;
pub mod error;
pub mod near;
pub mod order;
pub mod round;

verus! {

/// The sign bit.
pub const SIGN_BIT: u64 = 0x8000_0000_0000_0000;

/// The magnitude bits of an infinity; larger magnitudes are NaNs.
pub const INF_MAG: u64 = 0x7ff0_0000_0000_0000;

/// The magnitude bits of the NaN that operations return.
pub const NAN_MAG: u64 = 0x7ff8_0000_0000_0000;

/// The implicit leading bit of a normal significand, two to the power 52.
pub const HIDDEN: u64 = 0x10_0000_0000_0000;

/// The exponent of the smallest unit, negated: one is two to the power 1074 smallest units.
pub const ONE_SCALE: u32 = 1074;

/// A binary64 floating-point number.
#[derive(Clone, Copy, PartialEq, Eq, Structural, Debug)]
pub struct F64 {
    /// The interchange-format encoding.
    pub bits: u64,
}

/// The significand of the finite magnitude `m`.
pub open spec fn sig(m: nat) -> nat {
    if m < HIDDEN {
        m
    } else {
        m % (HIDDEN as nat) + HIDDEN as nat
    }
}

/// The exponent of the finite magnitude `m`, counted from the smallest unit.
pub open spec fn expo(m: nat) -> nat {
    if m < HIDDEN {
        0
    } else {
        (m / (HIDDEN as nat) - 1) as nat
    }
}

/// The finite magnitude `m` in smallest units.
pub open spec fn units(m: nat) -> nat {
    sig(m) * pow2(expo(m))
}

/// The number with the given sign and magnitude bits.
pub open spec fn make(negative: bool, m: nat) -> F64 {
    F64 { bits: (if negative { m + SIGN_BIT } else { m as int }) as u64 }
}

/// The NaN that operations return.
pub open spec fn quiet_nan() -> F64 {
    F64 { bits: NAN_MAG }
}

impl F64 {
    /// Whether the sign bit is set.
    pub open spec fn sign(self) -> bool {
        self.bits >= SIGN_BIT
    }

    /// The bits without the sign bit.
    pub open spec fn mag(self) -> nat {
        if self.sign() {
            (self.bits - SIGN_BIT) as nat
        } else {
            self.bits as nat
        }
    }

    /// Not a number.
    pub open spec fn nan(self) -> bool {
        self.mag() > INF_MAG
    }

    /// Plus or minus infinity.
    pub open spec fn inf(self) -> bool {
        self.mag() == INF_MAG
    }

    /// Neither infinite nor NaN.
    pub open spec fn finite(self) -> bool {
        self.mag() < INF_MAG
    }

    /// Plus or minus zero.
    pub open spec fn zero(self) -> bool {
        self.mag() == 0
    }

    /// The exact value of a finite number, in smallest units.
    pub open spec fn value(self) -> int {
        if self.sign() {
            -(units(self.mag()) as int)
        } else {
            units(self.mag()) as int
        }
    }

    /// The position of a number that is not NaN in the order of the extended reals.
    pub open spec fn key(self) -> int {
        if self.sign() {
            -(self.mag() as int)
        } else {
            self.mag() as int
        }
    }

    /// The number encoded by `bits`.
    pub fn from_bits(bits: u64) -> (r: F64)
        ensures
            r.bits == bits,
    {
        F64 { bits }
    }

    /// The encoding of the number.
    pub fn to_bits(self) -> (r: u64)
        ensures
            r == self.bits,
    {
        self.bits
    }

    /// Whether the sign bit is set.
    pub fn is_sign_negative(self) -> (r: bool)
        ensures
            r == self.sign(),
    {
        self.bits >= SIGN_BIT
    }

    /// Whether the sign bit is clear.
    pub fn is_sign_positive(self) -> (r: bool)
        ensures
            r == !self.sign(),
    {
        self.bits < SIGN_BIT
    }

    /// The bits without the sign bit.
    pub fn magnitude(self) -> (r: u64)
        ensures
            r as nat == self.mag(),
            r < SIGN_BIT,
    {
        if self.bits >= SIGN_BIT {
            self.bits - SIGN_BIT
        } else {
            self.bits
        }
    }

    /// Whether the number is NaN.
    pub fn is_nan(self) -> (r: bool)
        ensures
            r == self.nan(),
    {
        self.magnitude() > INF_MAG
    }

    /// Whether the number is plus or minus infinity.
    pub fn is_infinite(self) -> (r: bool)
        ensures
            r == self.inf(),
    {
        self.magnitude() == INF_MAG
    }

    /// Whether the number is neither infinite nor NaN.
    pub fn is_finite(self) -> (r: bool)
        ensures
            r == self.finite(),
    {
        self.magnitude() < INF_MAG
    }
}

/// The number with the given sign and magnitude bits.
pub(crate) fn assemble(negative: bool, m: u64) -> (r: F64)
    requires
        m < SIGN_BIT,
    ensures
        r == make(negative, m as nat),
        r.sign() == negative,
        r.mag() == m,
{
    if negative {
        F64 { bits: m + SIGN_BIT }
    } else {
        F64 { bits: m }
    }
}

} // verus!
