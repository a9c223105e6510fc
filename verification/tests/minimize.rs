use bobyqa::consts::{
    boundmax, neg_boundmax, DAMAGING_ROUNDING, FTARGET_ACHIEVED, MAXFUN_REACHED, MAXTR_REACHED,
    NAN_INF_F, NAN_INF_MODEL, NAN_INF_X, SMALL_TR_RADIUS,
};
use bobyqa::float::F64;
use bobyqa::powalg::counters::calvlag_noadd_calls;
use bobyqa::status::status_from_info;
use bobyqa::{bobyqa, funcmax, Bobyqa, Config, Outcome, Status};

fn num(v: f64) -> F64 {
    F64::from_bits(v.to_bits())
}

fn back(v: F64) -> f64 {
    f64::from_bits(v.to_bits())
}

fn vector(v: &[f64]) -> Vec<F64> {
    v.iter().map(|x| num(*x)).collect()
}

fn floats(v: &[F64]) -> Vec<f64> {
    v.iter().map(|x| back(*x)).collect()
}

fn sphere(x: &[F64]) -> F64 {
    let mut f = 0.0;
    for xi in x {
        f += back(*xi) * back(*xi);
    }
    num(f)
}

fn booth(x: &[F64]) -> F64 {
    let (x0, x1) = (back(x[0]), back(x[1]));
    let a = x0 + 2.0 * x1 - 7.0;
    let b = 2.0 * x0 + x1 - 5.0;
    num(a * a + b * b)
}

fn first(x: &[F64]) -> F64 {
    x[0]
}

/// Runs `f` on floats and writes the best point back.
fn minimize(
    s: &mut Bobyqa,
    f: impl FnMut(&[F64]) -> F64,
    x: &mut [f64],
    lower: &[f64],
    upper: &[f64],
) -> Outcome {
    let mut start = vector(x);
    let o = s.minimize(f, &mut start, &vector(lower), &vector(upper));
    for (a, b) in x.iter_mut().zip(start) {
        *a = back(b);
    }
    o
}

fn valid() -> (usize, Config) {
    (2, Config::new(2))
}

#[test]
fn config_new_returns_prima_defaults() {
    let c = Config::new(3);
    assert_eq!(c.npt, 7);
    assert_eq!(back(c.rho_begin), 1.0);
    assert_eq!(back(c.rho_end), 1e-6);
    assert_eq!(c.max_fun, 1500);
    assert_eq!(back(c.f_target), f64::NEG_INFINITY);
}

#[test]
fn new_accepts_the_default_config_and_the_npt_extremes() {
    let (n, c) = valid();
    assert!(Bobyqa::new(n, c).is_ok());
    assert!(Bobyqa::new(n, Config { npt: 4, ..c }).is_ok());
    assert!(Bobyqa::new(n, Config { npt: 6, ..c }).is_ok());
}

#[test]
fn new_rejects_bad_n_npt_rho_maxfun_ftarget() {
    let (n, c) = valid();
    assert!(Bobyqa::new(0, Config::new(1)).is_err());
    assert!(Bobyqa::new(n, Config { npt: 3, ..c }).is_err());
    assert!(Bobyqa::new(n, Config { npt: 7, ..c }).is_err());
    assert!(Bobyqa::new(n, Config { rho_end: num(0.0), ..c }).is_err());
    assert!(Bobyqa::new(n, Config { rho_end: num(2.0), ..c }).is_err());
    assert!(Bobyqa::new(n, Config { rho_begin: num(0.0), ..c }).is_err());
    assert!(Bobyqa::new(n, Config { rho_begin: num(-1.0), ..c }).is_err());
    assert!(Bobyqa::new(
        n,
        Config {
            rho_begin: num(f64::INFINITY),
            rho_end: num(1.0),
            ..c
        }
    )
    .is_err());
    assert!(Bobyqa::new(n, Config { max_fun: 5, ..c }).is_err());
    assert!(Bobyqa::new(n, Config { f_target: num(f64::NAN), ..c }).is_err());
}

#[test]
fn new_names_the_status_of_a_rejected_configuration() {
    let huge = Config {
        npt: usize::MAX,
        ..Config::new(2)
    };
    assert_eq!(Bobyqa::new(2, huge).unwrap_err(), Status::InvalidArgs);
    assert_eq!(
        Bobyqa::new(usize::MAX, Config::new(2)).unwrap_err(),
        Status::InvalidArgs
    );
}

fn invalid_outcome(o: Outcome) {
    assert_eq!(o.status, Status::InvalidArgs);
    assert!(back(o.f).is_nan());
    assert_eq!(o.n_eval, 0);
}

#[test]
fn minimize_rejects_bad_runtime_arguments() {
    let (n, c) = valid();
    let mut s = Bobyqa::new(n, c).unwrap();
    let nan = f64::NAN;
    invalid_outcome(minimize(&mut s, first, &mut [0.0], &[-1.0, -1.0], &[1.0, 1.0]));
    invalid_outcome(minimize(&mut s, first, &mut [0.0, 0.0], &[-1.0], &[1.0, 1.0]));
    invalid_outcome(minimize(&mut s, first, &mut [0.0, 0.0], &[-1.0, -1.0], &[1.0]));
    invalid_outcome(minimize(&mut s, first, &mut [0.0, 0.0], &[nan, -1.0], &[1.0, 1.0]));
    invalid_outcome(minimize(&mut s, first, &mut [0.0, 0.0], &[-1.0, -1.0], &[nan, 1.0]));
    invalid_outcome(minimize(&mut s, first, &mut [0.0, 0.0], &[2.0, -1.0], &[1.0, 1.0]));
    invalid_outcome(minimize(&mut s, first, &mut [0.0, 0.0], &[-0.5, -1.0], &[0.5, 1.0]));
    invalid_outcome(minimize(&mut s, first, &mut [nan, 0.0], &[-9.0, -9.0], &[9.0, 9.0]));
}

#[test]
fn a_rejected_minimization_leaves_the_start_alone() {
    let (n, c) = valid();
    let mut s = Bobyqa::new(n, c).unwrap();
    let mut x = [0.25, 0.5];
    invalid_outcome(minimize(&mut s, first, &mut x, &[2.0, -1.0], &[1.0, 1.0]));
    assert_eq!(x, [0.25, 0.5]);
}

#[test]
fn minimize_rejects_bounds_that_cross_or_collapse_after_the_boundmax_clamp() {
    let (n, c) = valid();
    let mut s = Bobyqa::new(n, c).unwrap();
    let below = -1e308;
    let inf = f64::NEG_INFINITY;
    invalid_outcome(minimize(&mut s, first, &mut [0.0, 0.0], &[inf, -9.0], &[below, 9.0]));
    let edge = -back(boundmax());
    assert_eq!(edge, back(neg_boundmax()));
    invalid_outcome(minimize(&mut s, first, &mut [0.0, 0.0], &[inf, -9.0], &[edge, 9.0]));
}

#[test]
fn minimize_converges_on_the_sphere_and_reports_the_trajectory_floor() {
    let (n, c) = valid();
    let mut s = Bobyqa::new(n, c).unwrap();
    let mut n_calls = 0usize;
    let mut x = [1.0, 2.0];
    let o = minimize(
        &mut s,
        |p: &[F64]| {
            n_calls += 1;
            sphere(p)
        },
        &mut x,
        &[-5.0, -5.0],
        &[5.0, 5.0],
    );
    assert_eq!(o.status, Status::Converged);
    assert_eq!(o.n_eval, n_calls);
    assert!(back(o.f) < 1e-8);
    assert!(x.iter().all(|v| v.abs() < 1e-3));
    assert!(o.n_eval >= c.npt);
}

#[test]
fn minimize_projects_a_near_bound_start_onto_the_bound_like_prima_preproc() {
    let (n, c) = valid();
    let mut s = Bobyqa::new(n, c).unwrap();
    let mut first_x0 = f64::NAN;
    let mut seen = false;
    let mut x = [1.4, 0.3];
    minimize(
        &mut s,
        |p: &[F64]| {
            if !seen {
                first_x0 = back(p[0]);
                seen = true;
            }
            sphere(p)
        },
        &mut x,
        &[1.0, -5.0],
        &[6.0, 5.0],
    );
    assert_eq!(first_x0, 1.0);
}

#[test]
fn minimize_stops_on_f_target_and_on_the_budget() {
    let (n, c) = valid();
    let mut s = Bobyqa::new(n, Config { f_target: num(0.5), ..c }).unwrap();
    let o = minimize(&mut s, sphere, &mut [1.0, 2.0], &[-5.0, -5.0], &[5.0, 5.0]);
    assert_eq!(o.status, Status::TargetReached);
    assert!(back(o.f) <= 0.5);

    let mut s = Bobyqa::new(n, Config { max_fun: 6, ..c }).unwrap();
    let o = minimize(&mut s, sphere, &mut [1.0, 2.0], &[-5.0, -5.0], &[5.0, 5.0]);
    assert_eq!(o.status, Status::MaxFunReached);
    assert_eq!(o.n_eval, 6);
}

#[test]
fn the_first_value_that_reaches_the_target_is_the_last_one() {
    let (n, c) = valid();
    for target in [4.5, 2.0, 1.0, 1e-3] {
        let mut s = Bobyqa::new(n, Config { f_target: num(target), ..c }).unwrap();
        let mut values = Vec::new();
        let o = minimize(
            &mut s,
            |p: &[F64]| {
                values.push(back(sphere(p)));
                sphere(p)
            },
            &mut [1.0, 2.0],
            &[-5.0, -5.0],
            &[5.0, 5.0],
        );
        assert_eq!(o.status, Status::TargetReached);
        assert_eq!(o.n_eval, values.len());
        let (last, before) = values.split_last().unwrap();
        assert!(*last <= target && before.iter().all(|v| *v > target));
        assert_eq!(back(o.f), *last);
    }
}

#[test]
fn all_infeasible_objective_is_detectable_via_funcmax_despite_converged() {
    let (n, c) = valid();
    let mut s = Bobyqa::new(n, c).unwrap();
    let o = minimize(
        &mut s,
        |_: &[F64]| num(f64::INFINITY),
        &mut [1.0, 2.0],
        &[-5.0, -5.0],
        &[5.0, 5.0],
    );
    assert_eq!(o.status, Status::Converged);
    assert!(
        back(o.f) >= back(funcmax()),
        "degenerate exit must be detectable: f = {} < FUNCMAX",
        back(o.f)
    );
    assert!(
        !o.found_finite(),
        "all-infeasible run must report found_finite() == false"
    );

    let mut s = Bobyqa::new(n, c).unwrap();
    let good = minimize(&mut s, sphere, &mut [1.0, 2.0], &[-5.0, -5.0], &[5.0, 5.0]);
    assert!(good.found_finite());
}

#[test]
fn minimize_accepts_infinite_bounds_via_the_boundmax_clamp() {
    let (n, c) = valid();
    let mut s = Bobyqa::new(n, c).unwrap();
    let mut x = [1.0, 2.0];
    let o = minimize(
        &mut s,
        sphere,
        &mut x,
        &[f64::NEG_INFINITY, -9.0],
        &[f64::INFINITY, 9.0],
    );
    assert_eq!(o.status, Status::Converged);
    assert!(back(o.f) < 1e-8);
}

#[test]
fn every_evaluation_lies_between_the_bounds() {
    let c = Config {
        rho_begin: num(0.5),
        ..Config::new(2)
    };
    let mut s = Bobyqa::new(2, c).unwrap();
    let (lower, upper) = ([-1.0, 0.1], [0.3, 1.7]);
    let mut x = [0.2, 0.3];
    let o = minimize(
        &mut s,
        |p: &[F64]| {
            let p = floats(p);
            for i in 0..2 {
                assert!(lower[i] <= p[i] && p[i] <= upper[i], "{p:?}");
            }
            let (a, b) = (1.0 - p[0], p[1] - p[0] * p[0]);
            num(a * a + 100.0 * b * b)
        },
        &mut x,
        &lower,
        &upper,
    );
    assert_eq!(o.status, Status::Converged);
    assert!((x[0] - 0.3).abs() < 1e-9 && (x[1] - 0.1).abs() < 1e-9, "{x:?}");
}

#[test]
fn the_outcome_holds_the_least_value() {
    let c = Config {
        npt: 6,
        rho_begin: num(0.5),
        ..Config::new(2)
    };
    let mut s = Bobyqa::new(2, c).unwrap();
    let mut least = f64::INFINITY;
    let mut at = Vec::new();
    let mut x = [-1.2, 1.0];
    let o = minimize(
        &mut s,
        |p: &[F64]| {
            let q = floats(p);
            let (a, b) = (1.0 - q[0], q[1] - q[0] * q[0]);
            let f = a * a + 100.0 * b * b;
            if f < least {
                least = f;
                at = q;
            }
            num(f)
        },
        &mut x,
        &[-2.0, -2.0],
        &[2.0, 2.0],
    );
    assert_eq!(o.status, Status::Converged);
    assert_eq!(back(o.f), least);
    assert_eq!(x.to_vec(), at);
    assert!(least < 1e-10);
}

#[test]
fn a_rescue_leads_to_the_known_number_of_evaluations() {
    let c = Config {
        npt: 5,
        rho_begin: num(0.5),
        rho_end: num(1e-12),
        max_fun: 500,
        f_target: num(f64::NEG_INFINITY),
    };
    let mut s = Bobyqa::new(2, c).unwrap();
    for _ in 0..3 {
        let mut x = [0.0, 0.0];
        let o = minimize(&mut s, booth, &mut x, &[-10.0, -10.0], &[10.0, 2.5]);
        assert_eq!(o.status, Status::Converged);
        assert_eq!(o.n_eval, 40);
    }
}

#[test]
fn nan_values_are_passed_over() {
    let mut s = Bobyqa::new(2, Config::new(2)).unwrap();
    let mut x = [1.0, 2.0];
    let o = minimize(
        &mut s,
        |p: &[F64]| {
            if back(p[0]) > 1.5 {
                num(f64::NAN)
            } else {
                sphere(p)
            }
        },
        &mut x,
        &[-5.0, -5.0],
        &[5.0, 5.0],
    );
    assert!(o.found_finite());
    assert!(back(o.f) < 1e-6, "f = {}", back(o.f));
}

#[test]
fn status_from_info_maps_every_reachable_prima_code() {
    assert_eq!(status_from_info(SMALL_TR_RADIUS), Status::Converged);
    assert_eq!(status_from_info(FTARGET_ACHIEVED), Status::TargetReached);
    assert_eq!(status_from_info(MAXFUN_REACHED), Status::MaxFunReached);
    assert_eq!(status_from_info(MAXTR_REACHED), Status::MaxFunReached);
    assert_eq!(status_from_info(NAN_INF_MODEL), Status::ModelDegenerate);
    assert_eq!(status_from_info(DAMAGING_ROUNDING), Status::ModelDegenerate);
    assert_eq!(status_from_info(NAN_INF_X), Status::ModelDegenerate);
    assert_eq!(status_from_info(NAN_INF_F), Status::ModelDegenerate);
}

#[test]
fn status_displays_and_is_an_error() {
    let e = Status::InvalidArgs;
    assert!(!e.message().is_empty());
    assert_eq!(
        e.message(),
        "invalid arguments: bad bounds, npt, sizes, or config"
    );
    assert_eq!(
        Status::Converged.message(),
        "the trust-region radius reached rho_end"
    );
}

#[test]
fn one_shot_bobyqa_minimizes_and_folds_construction_errors_into_the_outcome() {
    let mut x = vector(&[1.0, 2.0]);
    let (lower, upper) = (vector(&[-5.0, -5.0]), vector(&[5.0, 5.0]));
    let o = bobyqa(sphere, &mut x, &lower, &upper, Config::new(2));
    assert_eq!(o.status, Status::Converged);
    assert!(back(o.f) < 1e-8);

    invalid_outcome(bobyqa(first, &mut [], &[], &[], Config::new(1)));
    let bad_npt = Config {
        npt: 99,
        ..Config::new(2)
    };
    let mut x = vector(&[0.0, 0.0]);
    let (lower, upper) = (vector(&[-9.0, -9.0]), vector(&[9.0, 9.0]));
    invalid_outcome(bobyqa(first, &mut x, &lower, &upper, bad_npt));
}

/// The number of kernel evaluations of one run.
fn measure(
    n: usize,
    config: Config,
    f: fn(&[F64]) -> F64,
    x: &mut [f64],
    lower: &[f64],
    upper: &[f64],
) -> usize {
    let mut solver = Bobyqa::new(n, config).expect("valid config");
    solver.reset_kernel_count();
    let o = minimize(&mut solver, f, x, lower, upper);
    assert_eq!(o.status, Status::Converged);
    calvlag_noadd_calls(&solver.kernel_count())
}

#[test]
fn report_calvlag_noadd_multiplicity() {
    let n2 = measure(
        2,
        Config::new(2),
        sphere,
        &mut [1.0, 2.0],
        &[-5.0, -5.0],
        &[5.0, 5.0],
    );
    let config = Config {
        npt: 21,
        rho_begin: num(0.5),
        rho_end: num(1e-6),
        max_fun: 5000,
        f_target: num(f64::NEG_INFINITY),
    };
    let n10 = measure(
        10,
        config,
        sphere,
        &mut [1.0; 10],
        &[-5.0; 10],
        &[5.0; 10],
    );
    let config = Config {
        npt: 5,
        rho_begin: num(0.5),
        rho_end: num(1e-12),
        max_fun: 500,
        f_target: num(f64::NEG_INFINITY),
    };
    let rescue = measure(
        2,
        config,
        booth,
        &mut [0.0, 0.0],
        &[-10.0, -10.0],
        &[10.0, 2.5],
    );
    assert!(
        n2 > 0 && n10 > 0 && rescue > 0,
        "counter never incremented"
    );
}

#[test]
fn kernel_evaluations_add_up_over_runs() {
    let mut solver = Bobyqa::new(2, Config::new(2)).expect("valid config");
    let (lower, upper) = ([-5.0, -5.0], [5.0, 5.0]);
    minimize(&mut solver, sphere, &mut [1.0, 2.0], &lower, &upper);
    let once = calvlag_noadd_calls(&solver.kernel_count());
    minimize(&mut solver, sphere, &mut [1.0, 2.0], &lower, &upper);
    assert_eq!(calvlag_noadd_calls(&solver.kernel_count()), 2 * once);
    minimize(&mut solver, sphere, &mut [f64::NAN, 2.0], &lower, &upper);
    assert_eq!(calvlag_noadd_calls(&solver.kernel_count()), 2 * once);
    solver.reset_kernel_count();
    assert_eq!(calvlag_noadd_calls(&solver.kernel_count()), 0);
}

#[test]
fn a_run_that_ends_in_the_initial_set_evaluates_no_kernel() {
    let config = Config { f_target: num(100.0), ..Config::new(2) };
    let mut solver = Bobyqa::new(2, config).expect("valid config");
    let o = minimize(&mut solver, sphere, &mut [1.0, 2.0], &[-5.0, -5.0], &[5.0, 5.0]);
    assert_eq!(o.status, Status::TargetReached);
    assert_eq!(calvlag_noadd_calls(&solver.kernel_count()), 0);
}
