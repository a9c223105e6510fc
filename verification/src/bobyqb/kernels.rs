//! The number of kernel evaluations of a run.
//!
//! A kernel evaluation is one product of the inverse with the vector of a step; it is what an
//! iteration costs most.
use vstd::prelude::*;

use crate::bobyqb::course::begun;
use crate::bobyqb::course::carried_over;
use crate::bobyqb::course::farthest;
use crate::bobyqb::course::improvement_damaged;
use crate::bobyqb::course::improvement_of;
use crate::bobyqb::course::improving_step;
use crate::bobyqb::course::increment;
use crate::bobyqb::course::iterated;
use crate::bobyqb::course::iteration_limit;
use crate::bobyqb::course::judged;
use crate::bobyqb::course::point_at;
use crate::bobyqb::course::rescued;
use crate::bobyqb::course::step_fails;
use crate::bobyqb::course::stepped;
use crate::bobyqb::course::told;
use crate::bobyqb::course::trial;
use crate::bobyqb::course::trial_damaged;
use crate::bobyqb::course::trial_placed;
use crate::bobyqb::course::wants_geometry;
use crate::bobyqb::course::Asked;
use crate::bobyqb::course::Oracle;
use crate::bobyqb::course::Run;
use crate::bobyqb::course::Task;
use crate::consts::INFO_DFT;
use crate::float::F64;
use crate::geometry::geometry_kernels;
use crate::powalg::counters::tallied;
use crate::util::exit_code;
use crate::vector::plus;

verus! {

/// The exit test after the step of `s` is evaluated.
pub open spec fn exit_after_step(t: Task, s: Run, o: Oracle) -> i32 {
    let x = point_at(t, s.m, plus(s.m.xopt(), s.d));
    let s1 = s.evaluated(x, o);
    exit_code(t.set.maxfun, s1.log.len() as usize, s1.f, t.set.ftarget, x)
}

/// The state in which the evaluated trial step of `s` is judged.
pub open spec fn weighed(t: Task, s: Run, qred: F64, o: Oracle) -> Run {
    let x = point_at(t, s.m, plus(s.m.xopt(), s.d));
    judged(t, Run { rescued: false, ..s.evaluated(x, o) }, qred)
}

/// The trial step of `s` leads to a rescue.
pub open spec fn calls_for_rescue(t: Task, s: Run, qred: F64, o: Oracle) -> bool {
    let s2 = weighed(t, s, qred, o);
    s2.f < s2.m.fopt() && trial_damaged(s2.m, s2.d)
}

/// What it costs to take a trial point in whose Lagrange values are not known: one evaluation
/// for the choice of the point to drop, and two for the update.
pub open spec fn placing_kernels(t: Task, s: Run, moderr: F64) -> nat {
    if trial_placed(t, s, moderr).knew is None {
        1
    } else {
        3
    }
}

/// What the evaluated trial step of `s` costs: one evaluation gives the Lagrange values with
/// the denominators, and a point that is taken in without a rescue needs no other.
#[verifier::opaque]
pub open spec fn tried_kernels(t: Task, s: Run, qred: F64, o: Oracle) -> nat {
    if exit_after_step(t, s, o) != INFO_DFT {
        0
    } else if calls_for_rescue(t, s, qred, o) {
        let s3 = rescued(t, weighed(t, s, qred, o), o);
        if s3.ended {
            1
        } else {
            let s4 = carried_over(s3);
            1 + placing_kernels(t, s4, s4.f - s4.m.fopt() - increment(s4.m, s4.d))
        }
    } else {
        1
    }
}

/// What the trust-region part of an iteration costs.
#[verifier::opaque]
pub open spec fn trial_kernels(t: Task, s: Run, o: Oracle) -> nat {
    let s1 = stepped(s);
    if s1.shortd || step_fails(s1) {
        0
    } else {
        tried_kernels(t, s1, -increment(s1.m, s1.d), o)
    }
}

/// What the evaluated geometry step of `s` costs.
pub open spec fn replacing_kernels(t: Task, s: Run, o: Oracle) -> nat {
    if exit_after_step(t, s, o) != INFO_DFT {
        0
    } else {
        2
    }
}

/// What the geometry part of an iteration costs.
#[verifier::opaque]
pub open spec fn improved_kernels(t: Task, s: Run, o: Oracle) -> nat {
    let s1 = Run { d: improving_step(s), ..s };
    geometry_kernels(improvement_of(s)) + 1 + (if improvement_damaged(
        s1.m,
        s1.d,
        farthest(s.m),
    ) {
        0
    } else {
        replacing_kernels(t, s1, o)
    })
}

/// What the part of an iteration that follows the trial step costs.
pub open spec fn settled_kernels(t: Task, s: Run, failed: bool, o: Oracle) -> nat {
    if wants_geometry(t, s, failed) {
        improved_kernels(t, s, o)
    } else {
        0
    }
}

/// What one iteration costs.
#[verifier::opaque]
pub open spec fn iterated_kernels(t: Task, s: Run, o: Oracle) -> nat {
    let s1 = trial(t, s, o);
    trial_kernels(t, s, o) + (if s1.ended {
        0
    } else {
        settled_kernels(t, s1, step_fails(stepped(s)), o)
    })
}

/// What at most `k` iterations cost.
pub open spec fn iterations_kernels(t: Task, s: Run, k: nat, o: Oracle) -> nat
    decreases k,
{
    if k == 0 || s.ended {
        0
    } else {
        iterated_kernels(t, s, o) + iterations_kernels(t, iterated(t, s, o), (k - 1) as nat, o)
    }
}

/// What the whole run costs.
pub open spec fn solved_kernels(t: Task, npt: nat, x0: Seq<F64>, o: Oracle) -> nat {
    let s = begun(t, npt, x0, o);
    if s.ended {
        0
    } else {
        iterations_kernels(t, s, iteration_limit(t.set.maxfun), o)
    }
}

/// With the evaluations of the objective in `log`, a run of the task takes the number of kernel
/// evaluations from `before` to `after`.
pub open spec fn spends(
    t: Task,
    npt: nat,
    x0: Seq<F64>,
    log: Seq<Asked>,
    before: usize,
    after: usize,
) -> bool {
    forall|o: Oracle| #[trigger]
        told(o, log) ==> after == tallied(before, solved_kernels(t, npt, x0, o))
}

/// A trust-region iteration computes the kernel once: a trial step that is evaluated costs at
/// most one kernel evaluation, unless it leads to a rescue, and a step that is not evaluated
/// costs none.
pub proof fn lemma_one_kernel_per_trial(t: Task, s: Run, o: Oracle)
    ensures
        ({
            let s1 = stepped(s);
            let qred = -increment(s1.m, s1.d);
            let skipped = s1.shortd || step_fails(s1);
            let stops = exit_after_step(t, s1, o) != INFO_DFT;
            if skipped || stops {
                trial_kernels(t, s, o) == 0
            } else if !calls_for_rescue(t, s1, qred, o) {
                trial_kernels(t, s, o) == 1
            } else {
                1 <= trial_kernels(t, s, o) <= 4
            }
        }),
{
    reveal(trial_kernels);
    reveal(tried_kernels);
}

/// An iteration costs at most nine kernel evaluations, and at most four where the geometry of
/// the set is left alone.
pub proof fn lemma_iteration_kernels(t: Task, s: Run, o: Oracle)
    ensures
        iterated_kernels(t, s, o) <= 9,
        !wants_geometry(t, trial(t, s, o), step_fails(stepped(s))) ==> iterated_kernels(t, s, o)
            <= 4,
{
    reveal(iterated_kernels);
    reveal(improved_kernels);
    lemma_one_kernel_per_trial(t, s, o);
}

/// A run costs at most nine kernel evaluations for each of the iterations that it may make.
pub proof fn lemma_run_kernels(t: Task, npt: nat, x0: Seq<F64>, o: Oracle)
    ensures
        solved_kernels(t, npt, x0, o) <= 9 * iteration_limit(t.set.maxfun),
{
    let s = begun(t, npt, x0, o);
    lemma_iterations_kernels(t, s, iteration_limit(t.set.maxfun), o);
}

proof fn lemma_iterations_kernels(t: Task, s: Run, k: nat, o: Oracle)
    ensures
        iterations_kernels(t, s, k, o) <= 9 * k,
    decreases k,
{
    if k > 0 && !s.ended {
        lemma_iteration_kernels(t, s, o);
        lemma_iterations_kernels(t, iterated(t, s, o), (k - 1) as nat, o);
    }
}

} // verus!
