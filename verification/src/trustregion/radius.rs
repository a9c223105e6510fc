//! How the trust-region radius follows the success of a step.
use vstd::prelude::*;

use crate::bobyqb::reduction_ratio;
use crate::consts::neg_realmax;
use crate::consts::zero;
use crate::float::arith::lemma_fields;
use crate::float::convert::unity;
use crate::float::error::lemma_quotient_error;
use crate::float::error::size;
use crate::float::error::SHARP;
use crate::float::near::lemma_half_product;
use crate::float::order::at_most;
use crate::float::order::below;
use crate::float::order::max_of;
use crate::float::order::min_of;
use crate::float::F64;
use crate::trustregion::next_radius;

verus! {

/// The radius after a step of length `dnorm`.  After a bad step it shrinks: to the length of the
/// step or the shrunk radius, whichever is smaller.  After a fair step it is the larger one of
/// these, and after a good step that of the shrunk radius and the expanded length.  So a better
/// step never gives a smaller radius.
pub proof fn lemma_radius_follows(
    delta: F64,
    dnorm: F64,
    eta1: F64,
    eta2: F64,
    gamma1: F64,
    gamma2: F64,
    ratio: F64,
    better: F64,
)
    requires
        !(gamma1 * delta).nan(),
        !dnorm.nan(),
        dnorm <= gamma2 * dnorm,
        eta1 <= eta2,
        ratio <= better,
    ensures
        ({
            let r = next_radius(delta, dnorm, eta1, eta2, gamma1, gamma2, ratio);
            let s = gamma1 * delta;
            &&& r == s || r == dnorm || r == gamma2 * dnorm
            &&& ratio <= eta1 ==> r <= s && r <= dnorm
            &&& ratio > eta1 ==> s <= r && dnorm <= r
            &&& ratio > eta1 && ratio <= eta2 ==> r == s || r == dnorm
            &&& ratio > eta2 ==> gamma2 * dnorm <= r
            &&& r <= next_radius(delta, dnorm, eta1, eta2, gamma1, gamma2, better)
        }),
{
    reveal(at_most);
    reveal(below);
    reveal(max_of);
    reveal(min_of);
}

/// The ratio of the actual to the predicted reduction.  It is their quotient where the prediction
/// is positive; where it is not, the ratio lies below the threshold of a bad step, and it is the
/// lowest one unless the objective was reduced.  A reduction that is NaN gives the lowest one.
pub proof fn lemma_ratio_means(ared: F64, pred: F64, rshrink: F64)
    requires
        rshrink.finite(),
        zero() < rshrink,
    ensures
        ({
            let r = reduction_ratio(ared, pred, rshrink);
            &&& pred > zero() && pred.finite() && ared.finite() && r.finite() ==> 2 * SHARP * size(
                r.value() * pred.value() - ared.value() * unity(),
            ) <= size(ared.value()) * unity() + SHARP * size(pred.value())
            &&& !(pred > zero()) && ared > zero() ==> zero() <= r && r <= rshrink
            &&& !(pred > zero()) && !(ared > zero()) ==> r == neg_realmax()
            &&& ared.nan() ==> r == neg_realmax()
        }),
{
    reveal(at_most);
    reveal(below);
    lemma_half_product(rshrink);
    lemma_fields(0);
    let r = reduction_ratio(ared, pred, rshrink);
    if pred > zero() && pred.finite() && ared.finite() && r.finite() {
        lemma_quotient_error(ared, pred);
    }
}

} // verus!
