//! The numeric constants of the method and its exit codes.
use vstd::prelude::*;

use crate::float::F64;

verus! {

/// Zero.
#[verifier::allow_in_spec]
pub fn zero() -> F64
    returns
        (F64 { bits: 0x0000_0000_0000_0000 }),
{
    F64 { bits: 0x0000_0000_0000_0000 }
}

/// One.
#[verifier::allow_in_spec]
pub fn one() -> F64
    returns
        (F64 { bits: 0x3ff0_0000_0000_0000 }),
{
    F64 { bits: 0x3ff0_0000_0000_0000 }
}

/// Two.
#[verifier::allow_in_spec]
pub fn two() -> F64
    returns
        (F64 { bits: 0x4000_0000_0000_0000 }),
{
    F64 { bits: 0x4000_0000_0000_0000 }
}

/// Three quarters.
#[verifier::allow_in_spec]
pub fn three_quarters() -> F64
    returns
        (F64 { bits: 0x3fe8_0000_0000_0000 }),
{
    F64 { bits: 0x3fe8_0000_0000_0000 }
}

/// One half.
#[verifier::allow_in_spec]
pub fn half() -> F64
    returns
        (F64 { bits: 0x3fe0_0000_0000_0000 }),
{
    F64 { bits: 0x3fe0_0000_0000_0000 }
}

/// One quarter.
#[verifier::allow_in_spec]
pub fn quarter() -> F64
    returns
        (F64 { bits: 0x3fd0_0000_0000_0000 }),
{
    F64 { bits: 0x3fd0_0000_0000_0000 }
}

/// One eighth.
#[verifier::allow_in_spec]
pub fn eighth() -> F64
    returns
        (F64 { bits: 0x3fc0_0000_0000_0000 }),
{
    F64 { bits: 0x3fc0_0000_0000_0000 }
}

/// One tenth.
#[verifier::allow_in_spec]
pub fn tenth() -> F64
    returns
        (F64 { bits: 0x3fb9_9999_9999_999a }),
{
    F64 { bits: 0x3fb9_9999_9999_999a }
}

/// One and a half.
#[verifier::allow_in_spec]
pub fn one_and_half() -> F64
    returns
        (F64 { bits: 0x3ff8_0000_0000_0000 }),
{
    F64 { bits: 0x3ff8_0000_0000_0000 }
}

/// Ten.
#[verifier::allow_in_spec]
pub fn ten() -> F64
    returns
        (F64 { bits: 0x4024_0000_0000_0000 }),
{
    F64 { bits: 0x4024_0000_0000_0000 }
}

/// One thousand.
#[verifier::allow_in_spec]
pub fn thousand() -> F64
    returns
        (F64 { bits: 0x408f_4000_0000_0000 }),
{
    F64 { bits: 0x408f_4000_0000_0000 }
}

/// One twentieth.
#[verifier::allow_in_spec]
pub fn twentieth() -> F64
    returns
        (F64 { bits: 0x3fa9_9999_9999_999a }),
{
    F64 { bits: 0x3fa9_9999_9999_999a }
}

/// Sixteen.
#[verifier::allow_in_spec]
pub fn sixteen() -> F64
    returns
        (F64 { bits: 0x4030_0000_0000_0000 }),
{
    F64 { bits: 0x4030_0000_0000_0000 }
}

/// Seventeen.
#[verifier::allow_in_spec]
pub fn seventeen() -> F64
    returns
        (F64 { bits: 0x4031_0000_0000_0000 }),
{
    F64 { bits: 0x4031_0000_0000_0000 }
}

/// Two hundred and fifty.
#[verifier::allow_in_spec]
pub fn two_hundred_fifty() -> F64
    returns
        (F64 { bits: 0x406f_4000_0000_0000 }),
{
    F64 { bits: 0x406f_4000_0000_0000 }
}

/// The offset in the size of the grid of the search on the trust-region boundary.
#[verifier::allow_in_spec]
pub fn grid_offset() -> F64
    returns
        (F64 { bits: 0x4010_6666_6666_6666 }),
{
    F64 { bits: 0x4010_6666_6666_6666 }
}

/// The quotient by which the largest number is divided before its square root bounds the
/// components of which the squares can be added.
#[verifier::allow_in_spec]
pub fn norm_guard() -> F64
    returns
        (F64 { bits: 0x4000_cccc_cccc_cccd }),
{
    F64 { bits: 0x4000_cccc_cccc_cccd }
}

/// The size of gradient entry beyond which a trust-region subproblem is scaled.
#[verifier::allow_in_spec]
pub fn gradient_ceiling() -> F64
    returns
        (F64 { bits: 0x426d_1a94_a200_0000 }),
{
    F64 { bits: 0x426d_1a94_a200_0000 }
}

/// Minus one.
#[verifier::allow_in_spec]
pub fn minus_one() -> F64
    returns
        (F64 { bits: 0xbff0_0000_0000_0000 }),
{
    F64 { bits: 0xbff0_0000_0000_0000 }
}

/// Plus infinity.
#[verifier::allow_in_spec]
pub fn infinity() -> F64
    returns
        (F64 { bits: 0x7ff0_0000_0000_0000 }),
{
    F64 { bits: 0x7ff0_0000_0000_0000 }
}

/// Minus infinity.
#[verifier::allow_in_spec]
pub fn neg_infinity() -> F64
    returns
        (F64 { bits: 0xfff0_0000_0000_0000 }),
{
    F64 { bits: 0xfff0_0000_0000_0000 }
}

/// The distance from one to the next larger number.
#[verifier::allow_in_spec]
pub fn epsilon() -> F64
    returns
        (F64 { bits: 0x3cb0_0000_0000_0000 }),
{
    F64 { bits: 0x3cb0_0000_0000_0000 }
}

/// The smallest positive normal number.
#[verifier::allow_in_spec]
pub fn realmin() -> F64
    returns
        (F64 { bits: 0x0010_0000_0000_0000 }),
{
    F64 { bits: 0x0010_0000_0000_0000 }
}

/// The largest finite number.
#[verifier::allow_in_spec]
pub fn realmax() -> F64
    returns
        (F64 { bits: 0x7fef_ffff_ffff_ffff }),
{
    F64 { bits: 0x7fef_ffff_ffff_ffff }
}

/// The least finite number.
#[verifier::allow_in_spec]
pub fn neg_realmax() -> F64
    returns
        (F64 { bits: 0xffef_ffff_ffff_ffff }),
{
    F64 { bits: 0xffef_ffff_ffff_ffff }
}

/// The ceiling to which objective values are moderated: NaN and plus infinity become this value,
/// and larger finite values are lowered to it.
///
/// An outcome whose value is not below the ceiling says that no evaluated point had a finite
/// objective value below it: the run is degenerate even where it converged.
#[verifier::allow_in_spec]
pub fn funcmax() -> F64
    returns
        (F64 { bits: 0x4629_3e59_39a0_8cea }),
{
    F64 { bits: 0x4629_3e59_39a0_8cea }
}

/// A bound of at least this size means that there is no bound.
#[verifier::allow_in_spec]
pub fn boundmax() -> F64
    returns
        (F64 { bits: 0x7fcf_ffff_ffff_ffff }),
{
    F64 { bits: 0x7fcf_ffff_ffff_ffff }
}

/// The lowest bound that is told apart from no bound.
#[verifier::allow_in_spec]
pub fn neg_boundmax() -> F64
    returns
        (F64 { bits: 0xffcf_ffff_ffff_ffff }),
{
    F64 { bits: 0xffcf_ffff_ffff_ffff }
}

/// The tolerance of the symmetry test.
#[verifier::allow_in_spec]
pub fn symtol() -> F64
    returns
        (F64 { bits: 0x3ddb_7cdf_d9d7_bdbb }),
{
    F64 { bits: 0x3ddb_7cdf_d9d7_bdbb }
}

/// The default initial trust-region radius.
#[verifier::allow_in_spec]
pub fn rhobeg_dft() -> F64
    returns
        (F64 { bits: 0x3ff0_0000_0000_0000 }),
{
    F64 { bits: 0x3ff0_0000_0000_0000 }
}

/// The default final trust-region radius.
#[verifier::allow_in_spec]
pub fn rhoend_dft() -> F64
    returns
        (F64 { bits: 0x3eb0_c6f7_a0b5_ed8d }),
{
    F64 { bits: 0x3eb0_c6f7_a0b5_ed8d }
}

/// The reduction ratio up to which the trust region shrinks.
#[verifier::allow_in_spec]
pub fn eta1_dft() -> F64
    returns
        (F64 { bits: 0x3fb9_9999_9999_999a }),
{
    F64 { bits: 0x3fb9_9999_9999_999a }
}

/// The reduction ratio beyond which the trust region expands.
#[verifier::allow_in_spec]
pub fn eta2_dft() -> F64
    returns
        (F64 { bits: 0x3fe6_6666_6666_6666 }),
{
    F64 { bits: 0x3fe6_6666_6666_6666 }
}

/// The factor by which the trust region shrinks.
#[verifier::allow_in_spec]
pub fn gamma1_dft() -> F64
    returns
        (F64 { bits: 0x3fe0_0000_0000_0000 }),
{
    F64 { bits: 0x3fe0_0000_0000_0000 }
}

/// The factor by which the trust region expands.
#[verifier::allow_in_spec]
pub fn gamma2_dft() -> F64
    returns
        (F64 { bits: 0x4000_0000_0000_0000 }),
{
    F64 { bits: 0x4000_0000_0000_0000 }
}

/// The tolerance of the trust-region subproblem solver.
#[verifier::allow_in_spec]
pub fn trtol() -> F64
    returns
        (F64 { bits: 0x3f84_7ae1_47ae_147b }),
{
    F64 { bits: 0x3f84_7ae1_47ae_147b }
}

/// The smallest scaling of a norm.
#[verifier::allow_in_spec]
pub fn scalmin() -> F64
    returns
        (F64 { bits: 0x0010_0000_0000_0000 }),
{
    F64 { bits: 0x0010_0000_0000_0000 }
}

/// The largest scaling of a norm.
#[verifier::allow_in_spec]
pub fn scalmax() -> F64
    returns
        (F64 { bits: 0x7fd0_0000_0000_0000 }),
{
    F64 { bits: 0x7fd0_0000_0000_0000 }
}

/// The share of the largest entry of a matrix below which an entry is taken for zero: the
/// single-precision number nearest to 1e-20.
#[verifier::allow_in_spec]
pub fn rotation_floor() -> F64
    returns
        (F64 { bits: 0x3bc7_9ca1_0000_0000 }),
{
    F64 { bits: 0x3bc7_9ca1_0000_0000 }
}

/// The share of the squared radius below which a predicted reduction is taken for a failure: the
/// single-precision number nearest to 1e-6.
#[verifier::allow_in_spec]
pub fn reduction_floor() -> F64
    returns
        (F64 { bits: 0x3eb0_c6f7_a000_0000 }),
{
    F64 { bits: 0x3eb0_c6f7_a000_0000 }
}

/// A hundredth, as the single-precision number nearest to it.
#[verifier::allow_in_spec]
pub fn near_floor() -> F64
    returns
        (F64 { bits: 0x3f84_7ae1_4000_0000 }),
{
    F64 { bits: 0x3f84_7ae1_4000_0000 }
}

/// The default number of evaluations per variable.
pub const MAXFUN_DIM_DFT: usize = 500;

/// Nothing to report.
pub const INFO_DFT: i32 = 0;

/// The trust-region radius reached its final value; a normal end shares the value of
/// [`INFO_DFT`].
pub const SMALL_TR_RADIUS: i32 = 0;

/// An evaluation reached the target value.
pub const FTARGET_ACHIEVED: i32 = 1;

/// The evaluation budget is exhausted.
pub const MAXFUN_REACHED: i32 = 3;

/// The budget of trust-region iterations is exhausted.
pub const MAXTR_REACHED: i32 = 20;

/// A point holds NaN or an infinity.
pub const NAN_INF_X: i32 = -1;

/// An objective value is NaN or plus infinity.
pub const NAN_INF_F: i32 = -2;

/// The model holds NaN or an infinity.
pub const NAN_INF_MODEL: i32 = -3;

/// Rounding errors have damaged the model beyond repair.
pub const DAMAGING_ROUNDING: i32 = 7;

} // verus!
