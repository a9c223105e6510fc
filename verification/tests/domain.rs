//! Objectives that are defined between the bounds only.
use bobyqa::bobyqb::course::Settings;
use bobyqa::bobyqb::iterate::{bobyqb, SolverWs};
use bobyqa::consts::MAXFUN_REACHED;
use bobyqa::float::F64;
use bobyqa::util::{evaluate, interval_max, linspace_into};
use bobyqa::{bobyqa, is_config_valid, Bobyqa, Config, Status};

fn num(v: f64) -> F64 {
    F64::from_bits(v.to_bits())
}

fn back(v: F64) -> f64 {
    f64::from_bits(v.to_bits())
}

fn vector(v: &[f64]) -> Vec<F64> {
    v.iter().map(|x| num(*x)).collect()
}

fn floats(v: &[F64]) -> Vec<f64> {
    v.iter().map(|x| back(*x)).collect()
}

/// The Rosenbrock function of two variables, which fails on a slice of another length and outside
/// the bounds.
fn guarded(x: &[F64], lower: &[f64; 2], upper: &[f64; 2]) -> F64 {
    let p = floats(x);
    assert_eq!(p.len(), 2, "a point of another length");
    for i in 0..2 {
        assert!(p[i].is_finite(), "a point that is not finite");
        assert!(lower[i] <= p[i] && p[i] <= upper[i], "a point outside the bounds");
    }
    let (a, b) = (p[1] - p[0] * p[0], 1.0 - p[0]);
    num(100.0 * a * a + b * b)
}

fn never(_: &[F64]) -> F64 {
    panic!("the objective was asked")
}

#[test]
fn an_objective_defined_between_the_bounds_only_is_minimized() {
    let all = f64::INFINITY;
    for (lower, upper) in [
        ([-5.0, -5.0], [5.0, 5.0]),
        ([-2.0, -2.0], [0.5, 2.0]),
        ([-all, -all], [all, all]),
        ([-1.3, 0.9], [all, 3.0]),
    ] {
        let config = Config { npt: 6, rho_begin: num(0.3), ..Config::new(2) };
        let mut solver = Bobyqa::new(2, config).expect("valid config");
        let mut x = vector(&[-1.2, 1.0]);
        let objective = |p: &[F64]| guarded(p, &lower, &upper);
        let r = solver.minimize(objective, &mut x, &vector(&lower), &vector(&upper));
        assert_eq!(r.status, Status::Converged);
        assert_eq!(r.f, guarded(&x, &lower, &upper));
        let mut y = vector(&[-1.2, 1.0]);
        let s = bobyqa(objective, &mut y, &vector(&lower), &vector(&upper), config);
        assert_eq!((r.f, r.n_eval, r.status), (s.f, s.n_eval, s.status));
        assert_eq!(x, y);
    }
}

#[test]
fn the_first_value_can_reach_the_target() {
    let config = Config { f_target: num(10.0), ..Config::new(2) };
    let mut solver = Bobyqa::new(2, config).expect("valid config");
    let objective = |p: &[F64]| p[0] * p[0] + p[1] * p[1];
    let mut x = vector(&[1.0, 2.0]);
    let (lower, upper) = (vector(&[-5.0, -5.0]), vector(&[5.0, 5.0]));
    let r = solver.minimize(objective, &mut x, &lower, &upper);
    assert_eq!((r.status, r.n_eval), (Status::TargetReached, 1));
    assert_eq!((back(r.f), floats(&x)), (5.0, vec![1.0, 2.0]));
}

#[test]
fn the_best_point_is_kept_over_the_one_that_used_up_the_budget() {
    let mut objective = |p: &[F64]| {
        let v = back(p[0]);
        num(if v > 1.5 {
            7.0
        } else {
            0.25 * v * v - 1.25 * v + 1.0
        })
    };
    let mut ws = SolverWs::new(1, 3);
    ws.xl = vector(&[-5.0]);
    ws.xu = vector(&[5.0]);
    ws.progress.x = vector(&[0.0]);
    let set = Settings {
        maxfun: 4,
        eta1: num(0.1),
        eta2: num(0.7),
        ftarget: num(f64::NEG_INFINITY),
        gamma1: num(0.5),
        gamma2: num(2.0),
        rhobeg: num(1.0),
        rhoend: num(1e-6),
    };
    let (f, nf, info) = bobyqb(&mut objective, &set, &mut ws);
    assert_eq!((back(f), nf, info), (0.0, 4, MAXFUN_REACHED));
    assert_eq!(floats(&ws.progress.x), vec![1.0]);
}

#[test]
fn rejected_arguments_are_not_evaluated() {
    let mut solver = Bobyqa::new(2, Config::new(2)).expect("valid config");
    for (x, lower, upper) in [
        (vec![f64::NAN, 0.0], vec![-9.0, -9.0], vec![9.0, 9.0]),
        (vec![0.0, 0.0], vec![-9.0], vec![9.0, 9.0]),
        (vec![0.0, 0.0], vec![9.0, -9.0], vec![-9.0, 9.0]),
        (vec![0.0, 0.0], vec![-9.0, -9.0], vec![9.0, f64::NAN]),
        (vec![0.0, 0.0], vec![f64::NEG_INFINITY, -9.0], vec![-1e308, 9.0]),
        (vec![0.0], vec![-9.0, -9.0], vec![9.0, 9.0]),
    ] {
        let mut start = vector(&x);
        let r = solver.minimize(never, &mut start, &vector(&lower), &vector(&upper));
        assert_eq!((r.status, r.n_eval), (Status::InvalidArgs, 0));
        assert!(back(r.f).is_nan());
        assert_eq!(start, vector(&x));
    }
    let bad = Config { npt: 3, ..Config::new(2) };
    let mut start = vector(&[0.0, 0.0]);
    let (lower, upper) = (vector(&[-9.0, -9.0]), vector(&[9.0, 9.0]));
    let r = bobyqa(never, &mut start, &lower, &upper, bad);
    assert_eq!((r.status, r.n_eval), (Status::InvalidArgs, 0));
    assert_eq!(floats(&start), vec![0.0, 0.0]);
}

#[test]
fn a_configuration_of_huge_numbers_is_invalid() {
    let config = Config { npt: usize::MAX - 1, max_fun: usize::MAX, ..Config::new(2) };
    assert!(!is_config_valid(2, &config));
    assert_eq!(Bobyqa::new(2, config).err(), Some(Status::InvalidArgs));
    assert!(is_config_valid(2, &Config::new(2)));
}

#[test]
fn a_point_with_nan_is_not_evaluated() {
    let mut xmod = vector(&[0.0; 2]);
    let r = evaluate(&mut never, &vector(&[1.0, f64::NAN]), &mut xmod);
    assert!(back(r).is_nan());
}

#[test]
fn the_interval_search_stays_in_the_interval() {
    for (lb, ub) in [(0.0, 1.0), (-1.0, 2.0), (-0.3, 0.3), (1e-300, 3e-300), (-1e200, 5.0)] {
        for top in [0.1, 0.37, 0.5, 0.99] {
            let f = |x: F64, _: &[F64]| {
                let v = back(x);
                assert!(lb <= v && v <= ub, "outside the interval");
                let t = (v - lb) / (ub - lb) - top;
                num(-t * t)
            };
            let (mut xgrid, mut fgrid) = (vector(&[0.0; 50]), vector(&[0.0; 50]));
            let x = back(interval_max(f, num(lb), num(ub), &[], 50, &mut xgrid, &mut fgrid));
            assert!(lb <= x && x <= ub);
        }
    }
    let flat = |_: F64, _: &[F64]| num(2.0);
    let (mut xgrid, mut fgrid) = (vector(&[0.0; 7]), vector(&[0.0; 7]));
    let x = interval_max(flat, num(-1.5), num(2.0), &[], 7, &mut xgrid, &mut fgrid);
    assert_eq!(back(x), -1.5);
}

#[test]
fn the_grid_of_a_tiny_interval_can_leave_it() {
    let unit = f64::from_bits(1);
    let mut x = vector(&[0.0; 1000]);
    linspace_into(num(0.0), num(600.0 * unit), 1000, &mut x);
    assert_eq!(back(x[998]), 998.0 * unit);
    assert_eq!(back(x[999]), 600.0 * unit);
}
