//! What a minimization returns: the least value that was found, and its point.
use bobyqa::float::F64;
use bobyqa::{bobyqa, Config, Outcome};
use std::cell::RefCell;

fn num(v: f64) -> F64 {
    F64::from_bits(v.to_bits())
}

fn back(v: F64) -> f64 {
    f64::from_bits(v.to_bits())
}

fn vector(v: &[f64]) -> Vec<F64> {
    v.iter().map(|x| num(*x)).collect()
}

type Log = Vec<(Vec<f64>, f64)>;

fn run(
    f: fn(&[f64]) -> f64,
    x0: &[f64],
    lower: &[f64],
    upper: &[f64],
    npt: usize,
    rho_end: f64,
) -> (Log, Vec<f64>, Outcome) {
    let log: RefCell<Log> = RefCell::new(Vec::new());
    let config = Config {
        npt,
        rho_begin: num(0.5),
        rho_end: num(rho_end),
        max_fun: 300,
        f_target: num(f64::NEG_INFINITY),
    };
    let objective = |x: &[F64]| -> F64 {
        let p: Vec<f64> = x.iter().map(|v| back(*v)).collect();
        let v = f(&p);
        log.borrow_mut().push((p, v));
        num(v)
    };
    let mut x = vector(x0);
    let r = bobyqa(objective, &mut x, &vector(lower), &vector(upper), config);
    let point: Vec<f64> = x.iter().map(|v| back(*v)).collect();
    (log.into_inner(), point, r)
}

fn rosenbrock(x: &[f64]) -> f64 {
    let mut f = 0.0;
    for i in 0..x.len() - 1 {
        let a = x[i + 1] - x[i] * x[i];
        let b = 1.0 - x[i];
        f += 100.0 * a * a + b * b;
    }
    f
}

fn ridge(x: &[f64]) -> f64 {
    let mut f = 0.0;
    for (i, &v) in x.iter().enumerate() {
        let t = v - 0.3 * i as f64;
        f += t.abs() + (i + 1) as f64 * t * t;
    }
    f
}

fn two_wells(x: &[f64]) -> f64 {
    let t = x[0];
    t * t * t * t - 3.0 * t * t + t
}

fn moderated(v: f64) -> f64 {
    if v.is_nan() {
        1.0e30
    } else {
        v.min(1.0e30)
    }
}

fn walled(x: &[f64]) -> f64 {
    if x[0] < 0.4 {
        f64::NAN
    } else {
        rosenbrock(x)
    }
}

#[test]
fn the_outcome_is_the_least_value_and_its_point_was_asked() {
    for f in [rosenbrock, ridge, walled] {
        for npt in [4, 5, 6] {
            let (log, x, r) = run(f, &[1.5, 1.0], &[-2.0, -2.0], &[2.0, 2.0], npt, 1e-6);
            assert_eq!(log.len(), r.n_eval);
            for (_, v) in &log {
                assert!(back(r.f) <= moderated(*v));
            }
            assert!(log.iter().any(|(p, v)| *p == x && *v == back(r.f)));
        }
    }
}

#[test]
fn a_point_taken_in_after_a_rescue_is_placed_anew() {
    let (log, x, r) =
        run(two_wells, &[-0.6984773865751044], &[-5.0], &[5.295031436733211], 3, 5e-6);
    assert!(log.iter().any(|(_, v)| *v == back(r.f)));
    assert!(log.iter().all(|(p, _)| *p != x));
    assert!(log.iter().any(|(p, v)| *v == back(r.f) && (p[0] - x[0]).abs() < 1e-15));
    assert_eq!(x, vec![-1.3008394150040283]);
    assert_eq!(back(r.f), -3.5139050389346265);
}
