//! Why a run stopped.
use vstd::prelude::*;

use crate::consts::DAMAGING_ROUNDING;
use crate::consts::FTARGET_ACHIEVED;
use crate::consts::MAXFUN_REACHED;
use crate::consts::MAXTR_REACHED;
use crate::consts::NAN_INF_F;
use crate::consts::NAN_INF_MODEL;
use crate::consts::NAN_INF_X;
use crate::consts::SMALL_TR_RADIUS;

verus! {

/// Why the solver stopped (or why construction failed).
#[derive(Debug, Clone, Copy, PartialEq, Eq, Structural)]
pub enum Status {
    /// The trust-region radius reached `rho_end`.
    Converged,
    /// An evaluation reached `f_target`.
    TargetReached,
    /// The `max_fun` evaluation budget was exhausted.
    MaxFunReached,
    /// The rescue procedure could not restore the interpolation geometry.
    ModelDegenerate,
    /// Bad bounds, `npt`, or slice sizes.
    InvalidArgs,
}

impl Status {
    /// The description of the status.
    pub open spec fn description(self) -> Seq<char> {
        match self {
            Status::Converged => "the trust-region radius reached rho_end"@,
            Status::TargetReached => "an evaluation reached f_target"@,
            Status::MaxFunReached => "the max_fun evaluation budget was exhausted"@,
            Status::ModelDegenerate => "the interpolation model degenerated beyond rescue"@,
            Status::InvalidArgs => "invalid arguments: bad bounds, npt, sizes, or config"@,
        }
    }

    /// The description of the status.
    pub fn message(&self) -> (r: &'static str)
        ensures
            r@ == self.description(),
    {
        match self {
            Status::Converged => "the trust-region radius reached rho_end",
            Status::TargetReached => "an evaluation reached f_target",
            Status::MaxFunReached => "the max_fun evaluation budget was exhausted",
            Status::ModelDegenerate => "the interpolation model degenerated beyond rescue",
            Status::InvalidArgs => "invalid arguments: bad bounds, npt, sizes, or config",
        }
    }
}

/// The status for an exit code; the codes of a numerical breakdown share one.
pub open spec fn status_of(info: i32) -> Status {
    if info == SMALL_TR_RADIUS {
        Status::Converged
    } else if info == FTARGET_ACHIEVED {
        Status::TargetReached
    } else if info == MAXFUN_REACHED || info == MAXTR_REACHED {
        Status::MaxFunReached
    } else {
        Status::ModelDegenerate
    }
}

/// The exit codes that a run can have.
pub open spec fn known_exit(info: i32) -> bool {
    ||| info == SMALL_TR_RADIUS
    ||| info == FTARGET_ACHIEVED
    ||| info == MAXFUN_REACHED
    ||| info == MAXTR_REACHED
    ||| info == NAN_INF_MODEL
    ||| info == DAMAGING_ROUNDING
    ||| info == NAN_INF_X
    ||| info == NAN_INF_F
}

/// The status for an exit code of a run.
pub fn status_from_info(info: i32) -> (r: Status)
    requires
        known_exit(info),
    ensures
        r == status_of(info),
{
    if info == SMALL_TR_RADIUS {
        Status::Converged
    } else if info == FTARGET_ACHIEVED {
        Status::TargetReached
    } else if info == MAXFUN_REACHED || info == MAXTR_REACHED {
        Status::MaxFunReached
    } else {
        Status::ModelDegenerate
    }
}

} // verus!
