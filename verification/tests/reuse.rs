use bobyqa::float::F64;
use bobyqa::{Bobyqa, Config, Outcome};

fn num(v: f64) -> F64 {
    F64::from_bits(v.to_bits())
}

fn back(v: F64) -> f64 {
    f64::from_bits(v.to_bits())
}

fn vector(v: &[f64]) -> Vec<F64> {
    v.iter().map(|x| num(*x)).collect()
}

fn sphere(x: &[f64]) -> f64 {
    let mut f = 0.0;
    for &xi in x {
        f += xi * xi;
    }
    f
}

fn rosenbrock(x: &[f64]) -> f64 {
    let mut f = 0.0;
    for i in 0..x.len() - 1 {
        let a = x[i + 1] - x[i] * x[i];
        let b = 1.0 - x[i];
        f += 100.0 * a * a + b * b;
    }
    f
}

fn booth(x: &[f64]) -> f64 {
    let a = x[0] + 2.0 * x[1] - 7.0;
    let b = 2.0 * x[0] + x[1] - 5.0;
    a * a + b * b
}

struct Case {
    name: &'static str,
    f: fn(&[f64]) -> f64,
    npt: usize,
    rho_end: f64,
    x0: Vec<f64>,
    lower: Vec<f64>,
    upper: Vec<f64>,
}

fn cases() -> Vec<Case> {
    vec![
        Case {
            name: "sphere",
            f: sphere,
            npt: 5,
            rho_end: 1e-6,
            x0: vec![1.0, 2.0],
            lower: vec![-5.0; 2],
            upper: vec![5.0; 2],
        },
        Case {
            name: "rosenbrock",
            f: rosenbrock,
            npt: 6,
            rho_end: 1e-6,
            x0: vec![-1.2, 1.0],
            lower: vec![-5.0; 2],
            upper: vec![5.0; 2],
        },
        Case {
            name: "booth",
            f: booth,
            npt: 5,
            rho_end: 1e-12,
            x0: vec![0.0, 0.0],
            lower: vec![-10.0; 2],
            upper: vec![10.0, 2.5],
        },
    ]
}

type Trajectory = Vec<(Vec<F64>, f64)>;

fn run(case: &Case, solver: &mut Bobyqa) -> (Trajectory, Vec<F64>, Outcome) {
    let mut trajectory: Trajectory = Vec::new();
    let mut x = vector(&case.x0);
    let f = case.f;
    let outcome = solver.minimize(
        |p: &[F64]| {
            let point: Vec<f64> = p.iter().map(|v| back(*v)).collect();
            let value = f(&point);
            trajectory.push((p.to_vec(), value));
            num(value)
        },
        &mut x,
        &vector(&case.lower),
        &vector(&case.upper),
    );
    (trajectory, x, outcome)
}

#[test]
fn repeated_minimize_on_one_solver_is_bit_identical() {
    for case in cases() {
        let config = Config {
            npt: case.npt,
            rho_begin: num(0.5),
            rho_end: num(case.rho_end),
            max_fun: 500,
            f_target: num(f64::NEG_INFINITY),
        };
        let mut solver = Bobyqa::new(case.x0.len(), config).expect("valid config");
        let (t1, x1, o1) = run(&case, &mut solver);
        let (t2, x2, o2) = run(&case, &mut solver);
        assert_eq!(t1.len(), t2.len(), "{}: trajectory length", case.name);
        for (i, (a, b)) in t1.iter().zip(&t2).enumerate() {
            assert_eq!(a.0, b.0, "{}: eval {i}, x differs across reuse", case.name);
            assert_eq!(
                a.1.to_bits(),
                b.1.to_bits(),
                "{}: eval {i}, f differs across reuse",
                case.name
            );
        }
        assert_eq!(x1, x2, "{}: x", case.name);
        assert_eq!(o1.f, o2.f, "{}: f", case.name);
        assert_eq!(o1.n_eval, o2.n_eval, "{}: n_eval", case.name);
        assert_eq!(o1.status, o2.status, "{}: status", case.name);
        assert_eq!(o1.n_eval, t1.len(), "{}: evaluations", case.name);
    }
}

#[test]
fn a_solver_that_worked_on_something_else_gives_the_same_outcome() {
    let all = cases();
    let config = Config {
        npt: 5,
        rho_begin: num(0.5),
        rho_end: num(1e-6),
        max_fun: 500,
        f_target: num(f64::NEG_INFINITY),
    };
    let mut fresh = Bobyqa::new(2, config).expect("valid config");
    let mut worn = Bobyqa::new(2, config).expect("valid config");
    run(&all[2], &mut worn);
    run(&all[1], &mut worn);
    let (t1, x1, o1) = run(&all[0], &mut fresh);
    let (t2, x2, o2) = run(&all[0], &mut worn);
    assert_eq!(t1, t2);
    assert_eq!(x1, x2);
    assert_eq!((o1.f, o1.n_eval), (o2.f, o2.n_eval));
}
