//! Minimization of a function from its values alone, subject to bounds on the variables.
//!
//! The method is Powell's BOBYQA (bound optimization by quadratic approximation): a model that
//! interpolates the function at a set of points is minimized inside a trust region, and the set
//! is kept well-poised.  Numbers are binary64 numbers with correctly rounded operations; see
//! [`float`].
//!
//! - Every point at which the objective is evaluated lies between the bounds.
//! - The outcome is a function of the arguments and of the answers of the objective alone.
//! - Arguments that make no sense give an outcome that says so.
use vstd::prelude::*;

pub mod bobyqb;
pub mod consts;
pub mod entry;
pub mod float;
pub mod geometry;
pub mod initialize;
pub mod laws;
pub mod linalg;
pub mod mat;
pub mod model;
pub mod powalg;
pub mod rescue;
pub mod status;
pub mod trustregion;
pub mod update;
pub mod util;
pub mod vector;

pub use crate::bobyqb::drift::LONG_RUN;
pub use crate::consts::funcmax;
pub use crate::status::Status;

use crate::bobyqb::course::Asked;
use crate::bobyqb::course::Settings;
use crate::bobyqb::course::Task;
use crate::bobyqb::iterate::bobyqb;
use crate::bobyqb::iterate::ends_with;
use crate::bobyqb::iterate::SolverWs;
use crate::bobyqb::kernels::spends;
use crate::consts::boundmax;
use crate::consts::eta1_dft;
use crate::consts::eta2_dft;
use crate::consts::gamma1_dft;
use crate::consts::gamma2_dft;
use crate::consts::half;
use crate::consts::neg_boundmax;
use crate::consts::neg_infinity;
use crate::consts::rhobeg_dft;
use crate::consts::rhoend_dft;
use crate::consts::two;
use crate::consts::zero;
use crate::consts::MAXFUN_DIM_DFT;
use crate::float::order::max_of;
use crate::float::order::min_of;
use crate::float::quiet_nan;
use crate::float::F64;
use crate::float::NAN_MAG;
use crate::powalg::counters::KernelCount;
use crate::status::status_from_info;
use crate::status::status_of;
use crate::util::evaluable;
use crate::util::moderated_x;
use crate::util::moderatex1;
use crate::vector::any_nan;
use crate::vector::has_nan;

verus! {

/// What [`Bobyqa`] can be tuned by.  [`Config::new`] gives the values for a number of variables.
#[derive(Debug, Clone, Copy)]
pub struct Config {
    /// The number of interpolation points, from `n + 2` to `(n + 1)(n + 2) / 2`.  The initial
    /// set costs as many evaluations.
    pub npt: usize,
    /// The initial trust-region radius, positive and finite.
    pub rho_begin: F64,
    /// The final trust-region radius, which is the accuracy sought, positive and not above
    /// `rho_begin`.
    pub rho_end: F64,
    /// The number of evaluations that may be made, above `npt`.
    pub max_fun: usize,
    /// A value that is good enough to stop; minus infinity for none.  Not NaN.
    pub f_target: F64,
}

impl Config {
    /// The values for `n` variables.
    pub fn new(n: usize) -> (c: Config)
        requires
            2 * n + 1 <= usize::MAX,
            MAXFUN_DIM_DFT * n <= usize::MAX,
        ensures
            c.npt == 2 * n + 1,
            c.rho_begin == rhobeg_dft(),
            c.rho_end == rhoend_dft(),
            c.max_fun == MAXFUN_DIM_DFT * n,
            c.f_target == neg_infinity(),
    {
        Config {
            npt: 2 * n + 1,
            rho_begin: rhobeg_dft(),
            rho_end: rhoend_dft(),
            max_fun: MAXFUN_DIM_DFT * n,
            f_target: neg_infinity(),
        }
    }
}

/// The result of one [`Bobyqa::minimize`] call.
#[derive(Debug, Clone, Copy)]
pub struct Outcome {
    /// The best value found, with NaN, infinities and values above the ceiling [`funcmax`]
    /// replaced by the ceiling.  NaN when nothing was evaluated.  It is the least one of all
    /// values in a run of up to [`LONG_RUN`] evaluations; in a longer one roundings could have
    /// moved the interpolation set out of the range of numbers.
    pub f: F64,
    /// The number of evaluations.
    pub n_eval: usize,
    /// Why the solver stopped.
    pub status: Status,
}

impl Outcome {
    /// Whether a value below the ceiling was found; if not, every point that was tried gave
    /// NaN, infinity or a value not below the ceiling, whatever the status is, in a run of up to
    /// [`LONG_RUN`] evaluations.
    pub fn found_finite(&self) -> (r: bool)
        ensures
            r == (self.f < funcmax()),
    {
        self.f.lt(funcmax())
    }
}

/// The configuration makes sense for `n` variables.
pub open spec fn config_valid(n: usize, c: Config) -> bool {
    &&& n > 0
    &&& n + 2 <= c.npt <= (n + 1) * (n + 2) / 2
    &&& c.rho_begin.finite()
    &&& c.rho_begin > zero()
    &&& c.rho_end > zero()
    &&& c.rho_end <= c.rho_begin
    &&& c.max_fun > c.npt
    &&& !c.f_target.nan()
}

/// The lower bound that is used: at least that of the unbounded range.
pub open spec fn usable_lower(l: F64) -> F64 {
    max_of(l, neg_boundmax())
}

/// The upper bound that is used: at most that of the unbounded range.
pub open spec fn usable_upper(u: F64) -> F64 {
    min_of(u, boundmax())
}

/// The bounds that are used are in order, with room for the initial set between them.
pub open spec fn has_room(l: F64, u: F64, rho_begin: F64) -> bool {
    &&& usable_lower(l) <= usable_upper(u)
    &&& usable_upper(u) - usable_lower(l) >= two() * rho_begin
}

/// The start and the bounds make sense for `n` variables.
pub open spec fn args_valid(
    n: usize,
    rho_begin: F64,
    x: Seq<F64>,
    lower: Seq<F64>,
    upper: Seq<F64>,
) -> bool {
    &&& x.len() == n
    &&& lower.len() == n
    &&& upper.len() == n
    &&& !any_nan(lower)
    &&& !any_nan(upper)
    &&& forall|i: int| 0 <= i < n ==> has_room(#[trigger] lower[i], upper[i], rho_begin)
    &&& !any_nan(x)
}

/// The task of a minimization.
pub open spec fn task_of(c: Config, lower: Seq<F64>, upper: Seq<F64>) -> Task {
    Task {
        set: Settings {
            maxfun: c.max_fun,
            eta1: eta1_dft(),
            eta2: eta2_dft(),
            ftarget: c.f_target,
            gamma1: gamma1_dft(),
            gamma2: gamma2_dft(),
            rhobeg: c.rho_begin,
            rhoend: c.rho_end,
        },
        xl: Seq::new(lower.len(), |i: int| usable_lower(lower[i])),
        xu: Seq::new(upper.len(), |i: int| usable_upper(upper[i])),
    }
}

/// A coordinate of the start, away from the lower bound or on it.
pub open spec fn off_lower(x: F64, xl: F64, rhobeg: F64) -> F64 {
    if x <= xl + half() * rhobeg {
        xl
    } else if x < xl + rhobeg {
        xl + rhobeg
    } else {
        x
    }
}

/// A coordinate of the start, away from the upper bound or on it.
pub open spec fn off_upper(x: F64, xu: F64, rhobeg: F64) -> F64 {
    if x >= xu - half() * rhobeg {
        xu
    } else if x > xu - rhobeg {
        xu - rhobeg
    } else {
        x
    }
}

/// A coordinate of the start of the run: moderated, brought between the bounds, and on a bound
/// or at least `rhobeg` away from it.
pub open spec fn start_coordinate(x: F64, xl: F64, xu: F64, rhobeg: F64) -> F64 {
    off_upper(
        off_lower(max_of(xl, min_of(xu, moderated_x(x))), xl, rhobeg),
        xu,
        rhobeg,
    )
}

/// The start of the run.
pub open spec fn start_point(t: Task, x: Seq<F64>) -> Seq<F64> {
    Seq::new(x.len(), |i: int| start_coordinate(x[i], t.xl[i], t.xu[i], t.set.rhobeg))
}

/// The outcome where nothing is evaluated.
pub open spec fn rejected() -> Outcome {
    Outcome { f: quiet_nan(), n_eval: 0, status: Status::InvalidArgs }
}

/// A minimization from `x0` with valid arguments ends at `x` with the outcome `r`, after the
/// evaluations in `log`, for the reason `info`.
pub open spec fn minimized<F: FnMut(&[F64]) -> F64>(
    f: F,
    c: Config,
    x0: Seq<F64>,
    lower: Seq<F64>,
    upper: Seq<F64>,
    log: Seq<Asked>,
    info: i32,
    x: Seq<F64>,
    r: Outcome,
) -> bool {
    let t = task_of(c, lower, upper);
    &&& ends_with(f, t, c.npt as nat, start_point(t, x0), log, x, (r.f, r.n_eval, info))
    &&& r.status == status_of(info)
}

/// A minimization of `f` in `n` variables from `x0` ends at `x` with the outcome `r`: that of a run
/// where the configuration and the arguments make sense, and a rejection at `x0` otherwise.
pub open spec fn concluded<F: FnMut(&[F64]) -> F64>(
    f: F,
    n: usize,
    c: Config,
    x0: Seq<F64>,
    lower: Seq<F64>,
    upper: Seq<F64>,
    x: Seq<F64>,
    r: Outcome,
) -> bool {
    if config_valid(n, c) && args_valid(n, c.rho_begin, x0, lower, upper) {
        exists|log: Seq<Asked>, info: i32| #[trigger]
            minimized(f, c, x0, lower, upper, log, info, x, r)
    } else {
        r == rejected() && x == x0
    }
}

/// A minimization from `x0` with valid arguments, with the evaluations in `log`, takes the number
/// of kernel evaluations from `before` to `after`.
pub open spec fn kernels_spent(
    c: Config,
    x0: Seq<F64>,
    lower: Seq<F64>,
    upper: Seq<F64>,
    log: Seq<Asked>,
    before: usize,
    after: usize,
) -> bool {
    let t = task_of(c, lower, upper);
    spends(t, c.npt as nat, start_point(t, x0), log, before, after)
}

/// A coordinate of the start of the run.
fn start_at(x: F64, xl: F64, xu: F64, rhobeg: F64) -> (r: F64)
    ensures
        r == start_coordinate(x, xl, xu, rhobeg),
{
    let mut v: F64 = xl.max(xu.min(moderatex1(x)));
    if v.le(xl + half() * rhobeg) {
        v = xl;
    } else if v.lt(xl + rhobeg) {
        v = xl + rhobeg;
    }
    if v.ge(xu - half() * rhobeg) {
        v = xu;
    } else if v.gt(xu - rhobeg) {
        v = xu - rhobeg;
    }
    v
}

/// The outcome where nothing is evaluated.
fn reject() -> (r: Outcome)
    ensures
        r == rejected(),
{
    Outcome { f: F64::from_bits(NAN_MAG), n_eval: 0, status: Status::InvalidArgs }
}

/// There are at least `n + 2` points.
fn has_enough_points(n: usize, npt: usize) -> (r: bool)
    ensures
        r == (n + 2 <= npt),
{
    npt >= 2 && npt - 2 >= n
}

/// There are at most `(n + 1)(n + 2) / 2` points.
fn has_room_for_points(n: usize, npt: usize) -> (r: bool)
    ensures
        r == (npt <= (n + 1) * (n + 2) / 2),
{
    if n as u128 >= 0x2_0000_0000 {
        assert((n + 1) * (n + 2) / 2 > u64::MAX) by (nonlinear_arith)
            requires
                n >= 0x2_0000_0000,
        ;
        true
    } else {
        assert((n + 1) * (n + 2) <= 0x2_0000_0001 * 0x2_0000_0002) by (nonlinear_arith)
            requires
                0 <= n < 0x2_0000_0000,
        ;
        npt as u128 <= (n as u128 + 1) * (n as u128 + 2) / 2
    }
}

/// Whether the configuration makes sense for `n` variables.
pub fn is_config_valid(n: usize, config: &Config) -> (r: bool)
    ensures
        r == config_valid(n, *config),
{
    if n == 0 || !has_enough_points(n, config.npt) || !has_room_for_points(n, config.npt) {
        return false;
    }
    if !(config.rho_begin.is_finite() && config.rho_begin.gt(zero())) {
        return false;
    }
    if !(config.rho_end.gt(zero()) && config.rho_end.le(config.rho_begin)) {
        return false;
    }
    config.max_fun > config.npt && !config.f_target.is_nan()
}

/// A reusable solver: it holds every buffer that the method needs, is built once per problem
/// size, and can run any number of minimizations.
#[derive(Debug, Clone)]
pub struct Bobyqa {
    n: usize,
    config: Config,
    ws: SolverWs,
}

impl Bobyqa {
    /// The number of variables.
    pub closed spec fn size(&self) -> usize {
        self.n
    }

    /// The configuration.
    pub closed spec fn settings(&self) -> Config {
        self.config
    }

    /// The configuration makes sense, and the buffers fit it.
    pub closed spec fn wf(&self) -> bool {
        &&& config_valid(self.n, self.config)
        &&& self.ws.fits(self.n as nat, self.config.npt as nat)
    }

    /// The number of kernel evaluations.
    pub closed spec fn kernel_calls(&self) -> usize {
        self.ws.work.kernel_calls()
    }

    /// A solver for `n` variables; [`Status::InvalidArgs`] where `n` or the configuration does
    /// not make sense.
    pub fn new(n: usize, config: Config) -> (r: Result<Bobyqa, Status>)
        requires
            config_valid(n, config) ==> config.npt + n <= usize::MAX && 10 * n <= usize::MAX,
        ensures
            r is Ok <==> config_valid(n, config),
            r matches Ok(b) ==> {
                &&& b.wf()
                &&& b.size() == n
                &&& b.settings() == config
                &&& b.kernel_calls() == 0
            },
            r matches Err(e) ==> e == Status::InvalidArgs,
    {
        if !is_config_valid(n, &config) {
            return Err(Status::InvalidArgs);
        }
        Ok(Bobyqa { n, config, ws: SolverWs::new(n, config.npt) })
    }

    /// Whether the start and the bounds make sense: the lengths fit, nothing is NaN, and the
    /// bounds, brought into the unbounded range, leave room for the initial set.
    fn args_are_valid(&self, x: &[F64], lower: &[F64], upper: &[F64]) -> (r: bool)
        ensures
            r == args_valid(self.n, self.config.rho_begin, x@, lower@, upper@),
    {
        let n: usize = self.n;
        if x.len() != n || lower.len() != n || upper.len() != n {
            return false;
        }
        if has_nan(lower) || has_nan(upper) || has_nan(x) {
            return false;
        }
        for i in 0..n
            invariant
                n == self.n,
                lower@.len() == n,
                upper@.len() == n,
                forall|j: int|
                    0 <= j < i ==> has_room(
                        #[trigger] lower@[j],
                        upper@[j],
                        self.config.rho_begin,
                    ),
        {
            let l: F64 = lower[i].max(neg_boundmax());
            let u: F64 = upper[i].min(boundmax());
            if !(l.le(u) && (u - l).ge(two() * self.config.rho_begin)) {
                assert(!has_room(lower@[i as int], upper@[i as int], self.config.rho_begin));
                return false;
            }
        }
        true
    }

    /// Sets the bounds and the start of the run.
    fn set_task(&mut self, x: &[F64], lower: &[F64], upper: &[F64])
        requires
            old(self).wf(),
            x@.len() == old(self).n,
            lower@.len() == old(self).n,
            upper@.len() == old(self).n,
        ensures
            final(self).wf(),
            final(self).n == old(self).n,
            final(self).config == old(self).config,
            final(self).kernel_calls() == old(self).kernel_calls(),
            ({
                let t = task_of(old(self).config, lower@, upper@);
                &&& final(self).ws.xl@ == t.xl
                &&& final(self).ws.xu@ == t.xu
                &&& final(self).ws.progress.x@ == start_point(t, x@)
            }),
    {
        let n: usize = self.n;
        let ghost t: Task = task_of(self.config, lower@, upper@);
        let ghost npt: nat = self.config.npt as nat;
        let rhobeg: F64 = self.config.rho_begin;
        for i in 0..n
            invariant
                x@.len() == n,
                lower@.len() == n,
                upper@.len() == n,
                self.n == n,
                self.n == old(self).n,
                self.config == old(self).config,
                config_valid(self.n, self.config),
                self.kernel_calls() == old(self).kernel_calls(),
                npt == self.config.npt,
                rhobeg == self.config.rho_begin,
                self.ws.fits(n as nat, npt),
                t == task_of(self.config, lower@, upper@),
                forall|j: int|
                    0 <= j < i ==> {
                        &&& self.ws.xl@[j] == t.xl[j]
                        &&& self.ws.xu@[j] == t.xu[j]
                        &&& self.ws.progress.x@[j] == start_point(t, x@)[j]
                    },
        {
            let l: F64 = lower[i].max(neg_boundmax());
            let u: F64 = upper[i].min(boundmax());
            self.ws.xl[i] = l;
            self.ws.xu[i] = u;
            self.ws.progress.x[i] = start_at(x[i], l, u, rhobeg);
        }
        assert(self.ws.xl@ =~= t.xl);
        assert(self.ws.xu@ =~= t.xu);
        assert(self.ws.progress.x@ =~= start_point(t, x@));
    }

    /// The number of kernel evaluations since the last reset.
    pub fn kernel_count(&self) -> (r: KernelCount)
        ensures
            r.calls == self.kernel_calls(),
    {
        self.ws.work.kernel_count()
    }

    /// Sets the number of kernel evaluations to zero.
    pub fn reset_kernel_count(&mut self)
        requires
            old(self).wf(),
        ensures
            final(self).wf(),
            final(self).size() == old(self).size(),
            final(self).settings() == old(self).settings(),
            final(self).kernel_calls() == 0,
    {
        self.ws.work.reset_kernel_count();
    }

    /// Minimizes `f` from `x`, which becomes the best point found, subject to
    /// `lower <= x <= upper`.  Arguments that do not make sense leave `x` as it is, and `f` is
    /// not evaluated then.  It is evaluated at finite points between the bounds only: nowhere
    /// else need it be defined.
    pub fn minimize<F: FnMut(&[F64]) -> F64>(
        &mut self,
        f: F,
        x: &mut [F64],
        lower: &[F64],
        upper: &[F64],
    ) -> (r: Outcome)
        requires
            old(self).wf(),
            args_valid(
                old(self).size(),
                old(self).settings().rho_begin,
                old(x)@,
                lower@,
                upper@,
            ) ==> evaluable(f, lower@, upper@),
        ensures
            final(self).wf(),
            final(self).size() == old(self).size(),
            final(self).settings() == old(self).settings(),
            ({
                let c = old(self).settings();
                if args_valid(old(self).size(), c.rho_begin, old(x)@, lower@, upper@) {
                    exists|log: Seq<Asked>, info: i32| #[trigger]
                        minimized(f, c, old(x)@, lower@, upper@, log, info, final(x)@, r)
                            && kernels_spent(
                            c,
                            old(x)@,
                            lower@,
                            upper@,
                            log,
                            old(self).kernel_calls(),
                            final(self).kernel_calls(),
                        )
                } else {
                    &&& r == rejected()
                    &&& final(x)@ == old(x)@
                    &&& final(self).kernel_calls() == old(self).kernel_calls()
                }
            }),
            concluded(
                f,
                old(self).size(),
                old(self).settings(),
                old(x)@,
                lower@,
                upper@,
                final(x)@,
                r,
            ),
    {
        if !self.args_are_valid(x, lower, upper) {
            return reject();
        }
        let n: usize = self.n;
        let c: Config = self.config;
        let ghost t: Task = task_of(c, lower@, upper@);
        let ghost x0: Seq<F64> = x@;
        self.set_task(x, lower, upper);
        proof {
            laws::lemma_task_posed(n, c, x0, lower@, upper@);
            laws::lemma_task_evaluable(n, f, c, x0, lower@, upper@);
        }
        let set: Settings = Settings {
            maxfun: c.max_fun,
            eta1: eta1_dft(),
            eta2: eta2_dft(),
            ftarget: c.f_target,
            gamma1: gamma1_dft(),
            gamma2: gamma2_dft(),
            rhobeg: c.rho_begin,
            rhoend: c.rho_end,
        };
        let mut objective: F = f;
        let (fopt, nf, info): (F64, usize, i32) = bobyqb(&mut objective, &set, &mut self.ws);
        let ghost log: Seq<Asked> = choose|log: Seq<Asked>| #[trigger]
            ends_with(
                f,
                t,
                c.npt as nat,
                start_point(t, x0),
                log,
                self.ws.progress.x@,
                (fopt, nf, info),
            ) && spends(
                t,
                c.npt as nat,
                start_point(t, x0),
                log,
                old(self).kernel_calls(),
                self.ws.work.kernel_calls(),
            );
        proof {
            laws::lemma_exit_is_known(
                f,
                t,
                c.npt as nat,
                start_point(t, x0),
                log,
                self.ws.progress.x@,
                (fopt, nf, info),
            );
        }
        for i in 0..n
            invariant
                x@.len() == n,
                self.ws.progress.x@.len() == n,
                forall|j: int| 0 <= j < i ==> x@[j] == self.ws.progress.x@[j],
        {
            x[i] = self.ws.progress.x[i];
        }
        assert(x@ =~= self.ws.progress.x@);
        let r: Outcome = Outcome { f: fopt, n_eval: nf, status: status_from_info(info) };
        assert(minimized(f, c, x0, lower@, upper@, log, info, x@, r));
        r
    }
}

/// Minimizes `f` from `x` with a solver for this one minimization; arguments and configurations
/// that do not make sense give an outcome that says so, without an evaluation of `f`.  The
/// outcome is that of [`Bobyqa::new`] and [`Bobyqa::minimize`].
pub fn bobyqa<F: FnMut(&[F64]) -> F64>(
    f: F,
    x: &mut [F64],
    lower: &[F64],
    upper: &[F64],
    config: Config,
) -> (r: Outcome)
    requires
        config_valid(old(x)@.len() as usize, config) ==> {
            &&& config.npt + old(x)@.len() <= usize::MAX
            &&& 10 * old(x)@.len() <= usize::MAX
        },
        config_valid(old(x)@.len() as usize, config) && args_valid(
            old(x)@.len() as usize,
            config.rho_begin,
            old(x)@,
            lower@,
            upper@,
        ) ==> evaluable(f, lower@, upper@),
    ensures
        concluded(
            f,
            old(x)@.len() as usize,
            config,
            old(x)@,
            lower@,
            upper@,
            final(x)@,
            r,
        ),
{
    let n: usize = x.len();
    match Bobyqa::new(n, config) {
        Ok(b) => {
            let mut solver: Bobyqa = b;
            solver.minimize(f, x, lower, upper)
        },
        Err(_status) => reject(),
    }
}

} // verus!
