//! What holds of every minimization.
use vstd::prelude::*;

use crate::args_valid;
use crate::bobyqb::best::lemma_best_value;
use crate::bobyqb::course::begun;
use crate::bobyqb::course::solved;
use crate::bobyqb::course::told;
use crate::bobyqb::course::Asked;
use crate::bobyqb::course::Oracle;
use crate::bobyqb::course::Run;
use crate::bobyqb::course::Task;
use crate::bobyqb::drift::LONG_RUN;
use crate::bobyqb::iterate::ends_with;
use crate::bobyqb::laws::follows;
use crate::bobyqb::laws::lemma_finished;
use crate::bobyqb::laws::lemma_run_goes_on;
use crate::bobyqb::laws::posed;
use crate::bobyqb::laws::used;
use crate::bobyqb::laws::was_found;
use crate::bobyqb::site::asked_at;
use crate::bobyqb::site::lemma_best_point;
use crate::bobyqb::site::returns_in_place;
use crate::bobyqb::span::leaves_room;
use crate::bobyqb::span::lemma_reach;
use crate::bobyqb::span::radii_positive;
use crate::bobyqb::span::roomy;
use crate::concluded;
use crate::config_valid;
use crate::consts::boundmax;
use crate::consts::funcmax;
use crate::consts::neg_boundmax;
use crate::consts::DAMAGING_ROUNDING;
use crate::consts::MAXTR_REACHED;
use crate::consts::NAN_INF_MODEL;
use crate::float::near::top;
use crate::float::order::at_most;
use crate::float::order::below;
use crate::float::order::max_of;
use crate::float::order::min_of;
use crate::float::F64;
use crate::has_room;
use crate::minimized;
use crate::start_point;
use crate::status::known_exit;
use crate::status::Status;
use crate::task_of;
use crate::util::answers;
use crate::util::evaluable;
use crate::util::in_box;
use crate::util::lemma_moderated_value;
use crate::vector::all_finite;
use crate::Config;
use crate::Outcome;

verus! {

/// The oracle that repeats the answers in the log.
pub open spec fn replay(log: Seq<Asked>) -> Oracle {
    |k: nat, x: Seq<F64>| log[k as int].raw
}

/// Valid arguments pose a task: the bounds that are used are finite and in order, and the
/// budget is larger than the initial set.
pub proof fn lemma_task_posed(
    n: usize,
    c: Config,
    x: Seq<F64>,
    lower: Seq<F64>,
    upper: Seq<F64>,
)
    requires
        config_valid(n, c),
        args_valid(n, c.rho_begin, x, lower, upper),
    ensures
        posed(task_of(c, lower, upper), c.npt as nat),
        start_point(task_of(c, lower, upper), x).len() == n,
{
    let t = task_of(c, lower, upper);
    assert forall|i: int| 0 <= i < n implies (#[trigger] t.xl[i]).finite() && t.xu[i].finite()
        && t.xl[i] <= t.xu[i] by {
        assert(has_room(lower[i], upper[i], c.rho_begin));
        assert(!lower[i].nan() && !upper[i].nan());
        reveal(max_of);
        reveal(min_of);
        reveal(below);
        reveal(at_most);
    }
    assert forall|i: int| 0 <= i < n implies (#[trigger] t.xu[i]).finite() by {
        assert(t.xl[i].finite());
    }
}

/// Valid arguments leave room for the initial set between the bounds.
pub(crate) proof fn lemma_task_roomy(n: usize, c: Config, x: Seq<F64>, lower: Seq<F64>, upper: Seq<F64>)
    requires
        config_valid(n, c),
        args_valid(n, c.rho_begin, x, lower, upper),
    ensures
        roomy(task_of(c, lower, upper)),
        radii_positive(task_of(c, lower, upper)),
        c.rho_end.finite(),
        !c.rho_end.zero(),
{
    let t = task_of(c, lower, upper);
    reveal(max_of);
    reveal(min_of);
    reveal(below);
    reveal(at_most);
    assert forall|i: int| 0 <= i < n implies leaves_room(
        #[trigger] t.xl[i],
        t.xu[i],
        c.rho_begin,
    ) by {
        assert(has_room(lower[i], upper[i], c.rho_begin));
        assert(!lower[i].nan() && !upper[i].nan());
    }
}

/// The end of a run is the one that a repetition of its answers gives.
pub(crate) proof fn lemma_replayed<F: FnMut(&[F64]) -> F64>(
    f: F,
    t: Task,
    npt: nat,
    x0: Seq<F64>,
    log: Seq<Asked>,
    x: Seq<F64>,
    r: (F64, usize, i32),
)
    requires
        ends_with(f, t, npt, x0, log, x, r),
    ensures
        ({
            let s = solved(t, npt, x0, replay(log));
            s.log == log && s.x == x && s.f == r.0 && s.info == r.2
        }),
{
    assert(told(replay(log), log));
}

/// A run ends with an exit code that has a status.
pub proof fn lemma_exit_is_known<F: FnMut(&[F64]) -> F64>(
    f: F,
    t: Task,
    npt: nat,
    x0: Seq<F64>,
    log: Seq<Asked>,
    x: Seq<F64>,
    r: (F64, usize, i32),
)
    requires
        posed(t, npt),
        x0.len() == t.xl.len(),
        ends_with(f, t, npt, x0, log, x, r),
    ensures
        known_exit(r.2),
{
    lemma_replayed(f, t, npt, x0, log, x, r);
    lemma_finished(t, npt, x0, replay(log));
}

/// A point between the bounds that are used lies between the bounds of the problem.
pub proof fn lemma_task_inside(
    n: usize,
    c: Config,
    x: Seq<F64>,
    lower: Seq<F64>,
    upper: Seq<F64>,
    p: Seq<F64>,
)
    requires
        args_valid(n, c.rho_begin, x, lower, upper),
        in_box(p, task_of(c, lower, upper).xl, task_of(c, lower, upper).xu),
    ensures
        in_box(p, lower, upper),
{
    let t = task_of(c, lower, upper);
    assert forall|i: int| 0 <= i < p.len() implies (#[trigger] p[i]).within(
        lower[i],
        upper[i],
    ) by {
        assert(p[i].within(t.xl[i], t.xu[i]));
        assert(!lower[i].nan() && !upper[i].nan());
        reveal(max_of);
        reveal(min_of);
        reveal(below);
        reveal(at_most);
    }
}

/// The bounds that are used are those of the problem where these lie in the unbounded range, and
/// its ends, a quarter of the largest number away from zero, beyond: a number of that range lies
/// between the bounds that are used exactly where it lies between the bounds of the problem.
pub proof fn lemma_bounds_kept(c: Config, lower: Seq<F64>, upper: Seq<F64>, i: int, v: F64)
    requires
        lower.len() == upper.len(),
        0 <= i < lower.len(),
        !lower[i].nan(),
        !upper[i].nan(),
    ensures
        ({
            let t = task_of(c, lower, upper);
            &&& 4 * boundmax().value() == top() && neg_boundmax().value() == -boundmax().value()
            &&& lower[i].within(neg_boundmax(), boundmax()) ==> t.xl[i] == lower[i]
            &&& upper[i].within(neg_boundmax(), boundmax()) ==> t.xu[i] == upper[i]
            &&& lower[i] < neg_boundmax() ==> t.xl[i] == neg_boundmax()
            &&& upper[i] > boundmax() ==> t.xu[i] == boundmax()
            &&& v.within(neg_boundmax(), boundmax()) ==> (v.within(t.xl[i], t.xu[i])
                <==> v.within(lower[i], upper[i]))
        }),
{
    lemma_reach();
    reveal(max_of);
    reveal(min_of);
    reveal(below);
    reveal(at_most);
}

/// An objective that can be evaluated between the bounds of the problem can be evaluated between
/// the bounds that are used.
pub proof fn lemma_task_evaluable<F: FnMut(&[F64]) -> F64>(
    n: usize,
    f: F,
    c: Config,
    x: Seq<F64>,
    lower: Seq<F64>,
    upper: Seq<F64>,
)
    requires
        args_valid(n, c.rho_begin, x, lower, upper),
        evaluable(f, lower, upper),
    ensures
        evaluable(f, task_of(c, lower, upper).xl, task_of(c, lower, upper).xu),
{
    let t = task_of(c, lower, upper);
    assert forall|s: &[F64]| in_box(s@, t.xl, t.xu) && all_finite(s@) implies #[trigger]
    call_requires(f, (s,)) by {
        lemma_task_inside(n, c, x, lower, upper, s@);
    }
}

/// Every point of the log lies between the bounds, and so does the best point.  That the
/// objective is evaluated at no other point either follows from what a minimization asks of it:
/// see [`evaluable`].
pub proof fn lemma_bounds_honoured<F: FnMut(&[F64]) -> F64>(
    n: usize,
    f: F,
    c: Config,
    x0: Seq<F64>,
    lower: Seq<F64>,
    upper: Seq<F64>,
    log: Seq<Asked>,
    info: i32,
    x: Seq<F64>,
    r: Outcome,
)
    requires
        config_valid(n, c),
        args_valid(n, c.rho_begin, x0, lower, upper),
        minimized(f, c, x0, lower, upper, log, info, x, r),
    ensures
        forall|k: int| 0 <= k < log.len() ==> in_box((#[trigger] log[k]).x, lower, upper),
        in_box(x, lower, upper),
{
    let t = task_of(c, lower, upper);
    lemma_task_inside(n, c, x0, lower, upper, x);
    assert forall|k: int| 0 <= k < log.len() implies in_box(
        (#[trigger] log[k]).x,
        lower,
        upper,
    ) by {
        lemma_task_inside(n, c, x0, lower, upper, log[k].x);
    }
}

/// With the same arguments and an objective that is a function of the point, two minimizations
/// ask the objective at the same points and have the same outcome, whatever was done before with
/// the solvers, and whether they are those of [`crate::Bobyqa::minimize`] or of
/// [`crate::bobyqa()`].
pub proof fn lemma_deterministic<F: FnMut(&[F64]) -> F64, G: FnMut(&[F64]) -> F64>(
    value: spec_fn(Seq<F64>) -> F64,
    f: F,
    g: G,
    c: Config,
    x0: Seq<F64>,
    lower: Seq<F64>,
    upper: Seq<F64>,
    log1: Seq<Asked>,
    info1: i32,
    x1: Seq<F64>,
    r1: Outcome,
    log2: Seq<Asked>,
    info2: i32,
    x2: Seq<F64>,
    r2: Outcome,
)
    requires
        minimized(f, c, x0, lower, upper, log1, info1, x1, r1),
        minimized(g, c, x0, lower, upper, log2, info2, x2, r2),
        forall|k: int| 0 <= k < log1.len() ==> (#[trigger] log1[k]).raw == value(log1[k].x),
        forall|k: int| 0 <= k < log2.len() ==> (#[trigger] log2[k]).raw == value(log2[k].x),
    ensures
        log1 == log2,
        x1 == x2,
        r1 == r2,
{
    let o: Oracle = |k: nat, x: Seq<F64>| value(x);
    assert(told(o, log1));
    assert(told(o, log2));
}

/// The objective is a function of the point: its only answer at a point is the value there.
pub open spec fn answers_with<F: FnMut(&[F64]) -> F64>(
    f: F,
    value: spec_fn(Seq<F64>) -> F64,
) -> bool {
    forall|p: Seq<F64>, raw: F64| #[trigger] answers(f, p, raw) ==> raw == value(p)
}

/// The one-shot function gives what a solver gives: with the same arguments and an objective that
/// is a function of the point, two calls, of [`crate::Bobyqa::minimize`] or of
/// [`crate::bobyqa()`], end at the same point with the same outcome, the arguments that are
/// rejected among them.
pub proof fn lemma_same_outcome<F: FnMut(&[F64]) -> F64, G: FnMut(&[F64]) -> F64>(
    value: spec_fn(Seq<F64>) -> F64,
    f: F,
    g: G,
    n: usize,
    c: Config,
    x0: Seq<F64>,
    lower: Seq<F64>,
    upper: Seq<F64>,
    x1: Seq<F64>,
    r1: Outcome,
    x2: Seq<F64>,
    r2: Outcome,
)
    requires
        answers_with(f, value),
        answers_with(g, value),
        concluded(f, n, c, x0, lower, upper, x1, r1),
        concluded(g, n, c, x0, lower, upper, x2, r2),
    ensures
        x1 == x2,
        r1 == r2,
{
    if config_valid(n, c) && args_valid(n, c.rho_begin, x0, lower, upper) {
        let (log1, info1) = choose|log: Seq<Asked>, info: i32| #[trigger]
            minimized(f, c, x0, lower, upper, log, info, x1, r1);
        let (log2, info2) = choose|log: Seq<Asked>, info: i32| #[trigger]
            minimized(g, c, x0, lower, upper, log, info, x2, r2);
        lemma_deterministic(
            value,
            f,
            g,
            c,
            x0,
            lower,
            upper,
            log1,
            info1,
            x1,
            r1,
            log2,
            info2,
            x2,
            r2,
        );
    }
}

/// The run makes `2 maxfun` iterations, or as many as the machine can count, and none of them ends
/// it.
pub open spec fn iterates_in_full(t: Task, npt: nat, x0: Seq<F64>, o: Oracle) -> bool {
    exists|st: Seq<Run>|
        {
            &&& #[trigger] follows(t, begun(t, npt, x0, o), st, o)
            &&& !st.last().ended
            &&& st.len() > 2 * t.set.maxfun || st.len() > usize::MAX
        }
}

/// What the outcome of a minimization says: the number of evaluations is inside the budget, and
/// at least that of the initial set unless the target is reached; the status tells why the
/// minimization stopped: the resolution came down to the final one, the target was reached, the
/// budget was used up in evaluations or in twice as many iterations, or the model broke down; no
/// value before the last one reaches the target; and the value is one
/// that the objective gave, moderated.
pub proof fn lemma_outcome_means<F: FnMut(&[F64]) -> F64>(
    n: usize,
    f: F,
    c: Config,
    x0: Seq<F64>,
    lower: Seq<F64>,
    upper: Seq<F64>,
    log: Seq<Asked>,
    info: i32,
    x: Seq<F64>,
    r: Outcome,
)
    requires
        config_valid(n, c),
        args_valid(n, c.rho_begin, x0, lower, upper),
        minimized(f, c, x0, lower, upper, log, info, x, r),
    ensures
        r.n_eval == log.len(),
        0 < r.n_eval <= c.max_fun,
        r.status != Status::InvalidArgs,
        r.status != Status::TargetReached ==> r.n_eval >= c.npt,
        r.status == Status::TargetReached ==> r.f <= c.f_target,
        r.status == Status::MaxFunReached ==> r.n_eval == c.max_fun || info == MAXTR_REACHED,
        r.status == Status::MaxFunReached ==> r.n_eval == c.max_fun || iterates_in_full(
            task_of(c, lower, upper),
            c.npt as nat,
            start_point(task_of(c, lower, upper), x0),
            replay(log),
        ),
        r.status == Status::Converged ==> solved(
            task_of(c, lower, upper),
            c.npt as nat,
            start_point(task_of(c, lower, upper), x0),
            replay(log),
        ).rho <= c.rho_end,
        r.status == Status::ModelDegenerate ==> info == NAN_INF_MODEL || info
            == DAMAGING_ROUNDING,
        forall|k: int| 0 <= k < log.len() - 1 ==> !(used(#[trigger] log[k]) <= c.f_target),
        exists|k: int| 0 <= k < log.len() && r.f == used(#[trigger] log[k]),
        r.f.finite(),
        r.f <= funcmax(),
{
    let t = task_of(c, lower, upper);
    let npt = c.npt as nat;
    let start = start_point(t, x0);
    lemma_task_posed(n, c, x0, lower, upper);
    lemma_replayed(f, t, npt, start, log, x, (r.f, r.n_eval, info));
    lemma_finished(t, npt, start, replay(log));
    let s = solved(t, npt, start, replay(log));
    assert(was_found(s.f, s.log));
    let k = choose|k: int| 0 <= k < s.log.len() && s.f == used(#[trigger] s.log[k]);
    lemma_moderated_value(s.log[k].raw);
    lemma_run_goes_on(t, npt, start, replay(log));
}

/// The outcome holds the least one of the values that were found, in a run of no more
/// evaluations than [`LONG_RUN`].
pub proof fn lemma_outcome_best<F: FnMut(&[F64]) -> F64>(
    n: usize,
    f: F,
    c: Config,
    x0: Seq<F64>,
    lower: Seq<F64>,
    upper: Seq<F64>,
    log: Seq<Asked>,
    info: i32,
    x: Seq<F64>,
    r: Outcome,
)
    requires
        config_valid(n, c),
        args_valid(n, c.rho_begin, x0, lower, upper),
        minimized(f, c, x0, lower, upper, log, info, x, r),
        r.n_eval <= LONG_RUN,
    ensures
        forall|k: int| 0 <= k < log.len() ==> r.f <= used(#[trigger] log[k]),
{
    let t = task_of(c, lower, upper);
    let npt = c.npt as nat;
    let start = start_point(t, x0);
    lemma_task_posed(n, c, x0, lower, upper);
    lemma_task_roomy(n, c, x0, lower, upper);
    lemma_replayed(f, t, npt, start, log, x, (r.f, r.n_eval, info));
    reveal(below);
    reveal(at_most);
    assert(2 * npt <= (n + 1) * (n + 2));
    lemma_best_value(t, npt, start, replay(log));
}

/// The point that comes back is one at which the objective was asked, and the value of the
/// outcome is the one there, with one exception, on which it never is.  The exception is a run
/// that returns the best point of the interpolation set, not its last point, where that best
/// point is a trial point that was evaluated before a rescue and taken in after it as the best
/// one: its place is computed anew, with other roundings, and may be a point at which the
/// objective was not asked in the run, or not with that value.  See [`returns_in_place`].  The
/// run is one of no more evaluations than [`LONG_RUN`].
pub proof fn lemma_outcome_point<F: FnMut(&[F64]) -> F64>(
    n: usize,
    f: F,
    c: Config,
    x0: Seq<F64>,
    lower: Seq<F64>,
    upper: Seq<F64>,
    log: Seq<Asked>,
    info: i32,
    x: Seq<F64>,
    r: Outcome,
)
    requires
        config_valid(n, c),
        args_valid(n, c.rho_begin, x0, lower, upper),
        minimized(f, c, x0, lower, upper, log, info, x, r),
        r.n_eval <= LONG_RUN,
    ensures
        ({
            let t = task_of(c, lower, upper);
            asked_at(log, x, r.f) <==> returns_in_place(
                t,
                c.npt as nat,
                start_point(t, x0),
                replay(log),
            )
        }),
{
    let t = task_of(c, lower, upper);
    let npt = c.npt as nat;
    let start = start_point(t, x0);
    lemma_task_posed(n, c, x0, lower, upper);
    lemma_task_roomy(n, c, x0, lower, upper);
    lemma_replayed(f, t, npt, start, log, x, (r.f, r.n_eval, info));
    assert(2 * npt <= (n + 1) * (n + 2));
    lemma_best_point(t, npt, start, replay(log));
}

/// The outcome holds a value below the ceiling exactly where the objective gave one, in a run of
/// no more evaluations than [`LONG_RUN`].
pub proof fn lemma_found_finite_means<F: FnMut(&[F64]) -> F64>(
    n: usize,
    f: F,
    c: Config,
    x0: Seq<F64>,
    lower: Seq<F64>,
    upper: Seq<F64>,
    log: Seq<Asked>,
    info: i32,
    x: Seq<F64>,
    r: Outcome,
)
    requires
        config_valid(n, c),
        args_valid(n, c.rho_begin, x0, lower, upper),
        minimized(f, c, x0, lower, upper, log, info, x, r),
        r.n_eval <= LONG_RUN,
    ensures
        r.f < funcmax() <==> exists|k: int|
            0 <= k < log.len() && (#[trigger] log[k]).raw < funcmax(),
{
    lemma_outcome_means(n, f, c, x0, lower, upper, log, info, x, r);
    reveal(below);
    reveal(at_most);
    reveal(max_of);
    reveal(min_of);
    if r.f < funcmax() {
        let k = choose|k: int| 0 <= k < log.len() && r.f == used(#[trigger] log[k]);
        assert(log[k].raw < funcmax());
    }
    if exists|k: int| 0 <= k < log.len() && (#[trigger] log[k]).raw < funcmax() {
        lemma_outcome_best(n, f, c, x0, lower, upper, log, info, x, r);
        let k = choose|k: int| 0 <= k < log.len() && (#[trigger] log[k]).raw < funcmax();
        assert(used(log[k]) < funcmax());
        assert(r.f <= used(log[k]));
    }
}

} // verus!
