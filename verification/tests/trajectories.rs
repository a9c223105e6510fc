//! Whole runs, bit for bit: the points asked for (as a digest), the counts, the exit, the point
//! and the value returned.
use bobyqa::float::F64;
use bobyqa::powalg::counters::calvlag_noadd_calls;
use bobyqa::{Bobyqa, Config, Outcome, Status};

fn num(v: f64) -> F64 {
    F64::from_bits(v.to_bits())
}

fn back(v: F64) -> f64 {
    f64::from_bits(v.to_bits())
}

fn vector(v: &[f64]) -> Vec<F64> {
    v.iter().map(|x| num(*x)).collect()
}

fn sphere(x: &[f64]) -> f64 {
    let mut f = 0.0;
    for &xi in x {
        f += xi * xi;
    }
    f
}

fn far_sphere(x: &[f64]) -> f64 {
    let mut f = 0.0;
    for &xi in x {
        let t = xi - 1.0e6;
        f += t * t;
    }
    f
}

fn half_undefined(x: &[f64]) -> f64 {
    if x[0] > 0.5 {
        f64::NAN
    } else {
        sphere(x)
    }
}

fn rosenbrock(x: &[f64]) -> f64 {
    let mut f = 0.0;
    for i in 0..x.len() - 1 {
        let a = x[i + 1] - x[i] * x[i];
        let b = 1.0 - x[i];
        f += 100.0 * a * a + b * b;
    }
    f
}

fn booth(x: &[f64]) -> f64 {
    let a = x[0] + 2.0 * x[1] - 7.0;
    let b = 2.0 * x[0] + x[1] - 5.0;
    a * a + b * b
}

fn powell_singular(x: &[f64]) -> f64 {
    let a = x[0] + 10.0 * x[1];
    let b = x[2] - x[3];
    let c = x[1] - 2.0 * x[2];
    let d = x[0] - x[3];
    a * a + 5.0 * b * b + c * c * c * c + 10.0 * d * d * d * d
}

fn beale(x: &[f64]) -> f64 {
    let a = 1.5 - x[0] + x[0] * x[1];
    let b = 2.25 - x[0] + x[0] * x[1] * x[1];
    let c = 2.625 - x[0] + x[0] * x[1] * x[1] * x[1];
    a * a + b * b + c * c
}

fn ridge(x: &[f64]) -> f64 {
    let mut f = 0.0;
    for (i, &v) in x.iter().enumerate() {
        let t = v - 0.3 * i as f64;
        f += t.abs() + (i + 1) as f64 * t * t;
    }
    f
}

fn steep(x: &[f64]) -> f64 {
    let a = x[0] - 1.0;
    let b = x[1] - x[0];
    1.0e14 * a * a + b * b + 1.0e9 * b
}

fn quartic(x: &[f64]) -> f64 {
    (x[0] - 0.25) * (x[0] - 0.25) * (x[0] + 3.0) * (x[0] + 3.0) + x[0]
}

struct Run {
    name: &'static str,
    f: fn(&[f64]) -> f64,
    x0: Vec<f64>,
    lower: Vec<f64>,
    upper: Vec<f64>,
    npt: usize,
    rho_begin: f64,
    rho_end: f64,
    max_fun: usize,
    f_target: f64,
    asked: u64,
    n_eval: usize,
    kernels: usize,
    status: Status,
    f_bits: u64,
    x_bits: Vec<u64>,
}

fn digest(acc: u64, v: f64) -> u64 {
    (acc ^ v.to_bits()).wrapping_mul(0x100_0000_01b3)
}

fn replay(run: &Run) {
    let config = Config {
        npt: run.npt,
        rho_begin: num(run.rho_begin),
        rho_end: num(run.rho_end),
        max_fun: run.max_fun,
        f_target: num(run.f_target),
    };
    let acc = std::cell::Cell::new(0xcbf2_9ce4_8422_2325_u64);
    let objective = |x: &[F64]| -> F64 {
        let p: Vec<f64> = x.iter().map(|v| back(*v)).collect();
        for &v in &p {
            acc.set(digest(acc.get(), v));
        }
        num((run.f)(&p))
    };
    let mut x = vector(&run.x0);
    let mut solver = Bobyqa::new(x.len(), config).expect("valid config");
    assert_eq!(calvlag_noadd_calls(&solver.kernel_count()), 0);
    let (lower, upper) = (vector(&run.lower), vector(&run.upper));
    let r: Outcome = solver.minimize(objective, &mut x, &lower, &upper);
    assert_eq!(r.n_eval, run.n_eval, "{}: n_eval", run.name);
    assert_eq!(r.status, run.status, "{}: status", run.name);
    let kernels = calvlag_noadd_calls(&solver.kernel_count());
    assert_eq!(kernels, run.kernels, "{}: kernels", run.name);
    assert_eq!(acc.get(), run.asked, "{}: points", run.name);
    assert_eq!(r.f.to_bits(), run.f_bits, "{}: f", run.name);
    let bits: Vec<u64> = x.iter().map(|v| v.to_bits()).collect();
    assert_eq!(bits, run.x_bits, "{}: x", run.name);
}

fn runs() -> Vec<Run> {
    vec![
        Run {
            name: "sphere",
            f: sphere,
            x0: vec![1.0, 2.0],
            lower: vec![-5.0; 2],
            upper: vec![5.0; 2],
            npt: 5,
            rho_begin: 1.0,
            rho_end: 1e-06,
            max_fun: 1000,
            f_target: f64::NEG_INFINITY,
            asked: 0x9aac214ddac6f77b,
            n_eval: 20,
            kernels: 61,
            status: Status::Converged,
            f_bits: 0x0000000000000000,
            x_bits: vec![0x0000000000000000, 0x0000000000000000],
        },
        Run {
            name: "rosenbrock with a full set",
            f: rosenbrock,
            x0: vec![-1.2, 1.0],
            lower: vec![-5.0; 2],
            upper: vec![5.0; 2],
            npt: 6,
            rho_begin: 0.5,
            rho_end: 1e-06,
            max_fun: 500,
            f_target: f64::NEG_INFINITY,
            asked: 0x61b0a5eaccefb176,
            n_eval: 151,
            kernels: 265,
            status: Status::Converged,
            f_bits: 0x3b9d58c5746d0000,
            x_bits: vec![0x3feffffffffa9a6d, 0x3feffffffff540e7],
        },
        Run {
            name: "rosenbrock of four",
            f: rosenbrock,
            x0: vec![-1.2, 1.0, 0.5, 2.0],
            lower: vec![-2.0; 4],
            upper: vec![2.0; 4],
            npt: 9,
            rho_begin: 0.5,
            rho_end: 1e-06,
            max_fun: 800,
            f_target: f64::NEG_INFINITY,
            asked: 0xd403eb09c74d371b,
            n_eval: 167,
            kernels: 300,
            status: Status::Converged,
            f_bits: 0x400d9c869a723606,
            x_bits: vec![0xbfe8d232fff06cc3, 0x3fe39e75926f79c8, 0x3fd873b6c55e7009, 0x3fc2af345e03c67e],
        },
        Run {
            name: "rosenbrock of four with a full set",
            f: rosenbrock,
            x0: vec![-1.2, 1.0, 0.5, 2.0],
            lower: vec![-2.0; 4],
            upper: vec![2.0; 4],
            npt: 15,
            rho_begin: 0.5,
            rho_end: 1e-06,
            max_fun: 800,
            f_target: f64::NEG_INFINITY,
            asked: 0x83819c7ea5238696,
            n_eval: 258,
            kernels: 389,
            status: Status::Converged,
            f_bits: 0x400d9c869a72348a,
            x_bits: vec![0xbfe8d2335a80cc09, 0x3fe39e7610af93a7, 0x3fd873b7f1348614, 0x3fc2af366121f6d1],
        },
        Run {
            name: "rosenbrock of four with a smallest set",
            f: rosenbrock,
            x0: vec![-1.2, 1.0, 0.5, 1.0],
            lower: vec![-2.0; 4],
            upper: vec![2.0; 4],
            npt: 6,
            rho_begin: 0.5,
            rho_end: 1e-06,
            max_fun: 800,
            f_target: f64::NEG_INFINITY,
            asked: 0xda09e0a63e6a032d,
            n_eval: 373,
            kernels: 618,
            status: Status::Converged,
            f_bits: 0x400d9c869a726126,
            x_bits: vec![0xbfe8d235792baa9a, 0x3fe39e796698829e, 0x3fd873c0b604a578, 0x3fc2af44576d1a20],
        },
        Run {
            name: "booth",
            f: booth,
            x0: vec![0.0; 2],
            lower: vec![-10.0; 2],
            upper: vec![10.0, 2.5],
            npt: 5,
            rho_begin: 0.5,
            rho_end: 1e-12,
            max_fun: 500,
            f_target: f64::NEG_INFINITY,
            asked: 0xc43fc9124b98fbf0,
            n_eval: 40,
            kernels: 119,
            status: Status::Converged,
            f_bits: 0x3fdcccccccccccc3,
            x_bits: vec![0x3ff666666666775e, 0x4004000000000000],
        },
        Run {
            name: "powell singular",
            f: powell_singular,
            x0: vec![3.0, -1.0, 0.0, 1.0],
            lower: vec![-4.0; 4],
            upper: vec![5.0; 4],
            npt: 9,
            rho_begin: 1.0,
            rho_end: 1e-08,
            max_fun: 1000,
            f_target: f64::NEG_INFINITY,
            asked: 0xaf031f5fc037084b,
            n_eval: 794,
            kernels: 1442,
            status: Status::Converged,
            f_bits: 0x3c8814632547485b,
            x_bits: vec![0xbf0fdfe118474815, 0x3ed97fe7494f591c, 0xbf0301f3c9fdc2d1, 0xbf0301f4022af607],
        },
        Run {
            name: "beale",
            f: beale,
            x0: vec![1.0; 2],
            lower: vec![-4.5; 2],
            upper: vec![4.5; 2],
            npt: 5,
            rho_begin: 0.5,
            rho_end: 1e-10,
            max_fun: 400,
            f_target: f64::NEG_INFINITY,
            asked: 0x3aeb0b63d0305c4d,
            n_eval: 66,
            kernels: 139,
            status: Status::Converged,
            f_bits: 0x3b145520ea000000,
            x_bits: vec![0x4007fffffffff553, 0x3fdfffffffffcda1],
        },
        Run {
            name: "sphere undefined on one side",
            f: half_undefined,
            x0: vec![-2.0, 1.0],
            lower: vec![-5.0; 2],
            upper: vec![5.0; 2],
            npt: 5,
            rho_begin: 1.0,
            rho_end: 1e-06,
            max_fun: 300,
            f_target: f64::NEG_INFINITY,
            asked: 0x12137e944b9fb989,
            n_eval: 20,
            kernels: 61,
            status: Status::Converged,
            f_bits: 0x0000000000000000,
            x_bits: vec![0x0000000000000000, 0x0000000000000000],
        },
        Run {
            name: "sphere of ten",
            f: sphere,
            x0: vec![1.0; 10],
            lower: vec![-5.0; 10],
            upper: vec![5.0; 10],
            npt: 21,
            rho_begin: 0.5,
            rho_end: 1e-06,
            max_fun: 5000,
            f_target: f64::NEG_INFINITY,
            asked: 0xc840536e0115b2bb,
            n_eval: 36,
            kernels: 61,
            status: Status::Converged,
            f_bits: 0x39b9000000000000,
            x_bits: vec![0x3cd0000000000000, 0xbcb0000000000000, 0xbcb0000000000000, 0xbcb0000000000000, 0xbcb0000000000000, 0xbcb0000000000000, 0xbcb0000000000000, 0xbcb0000000000000, 0xbcb0000000000000, 0xbcb0000000000000],
        },
        Run {
            name: "ridge",
            f: ridge,
            x0: vec![1.0; 5],
            lower: vec![-1.0; 5],
            upper: vec![3.0; 5],
            npt: 11,
            rho_begin: 0.5,
            rho_end: 1e-08,
            max_fun: 600,
            f_target: f64::NEG_INFINITY,
            asked: 0x0540e07de275a77f,
            n_eval: 208,
            kernels: 391,
            status: Status::Converged,
            f_bits: 0x3e7572af57d194b3,
            x_bits: vec![0xbdd21c374f9e9080, 0x3fd333335297389f, 0x3fe3333335b1c229, 0x3feccccce3179c5f, 0x3ff333333463aab6],
        },
        Run {
            name: "ridge with a smallest set",
            f: ridge,
            x0: vec![2.0; 3],
            lower: vec![0.1; 3],
            upper: vec![3.0; 3],
            npt: 5,
            rho_begin: 0.25,
            rho_end: 1e-09,
            max_fun: 400,
            f_target: f64::NEG_INFINITY,
            asked: 0xef0c4161fc871127,
            n_eval: 79,
            kernels: 119,
            status: Status::Converged,
            f_bits: 0x3fbc28f5c4d20dae,
            x_bits: vec![0x3fb999999999999a, 0x3fd33333336b70f2, 0x3fe333333306fbe2],
        },
        Run {
            name: "steep valley",
            f: steep,
            x0: vec![4.0; 2],
            lower: vec![-1e+20; 2],
            upper: vec![1e+20; 2],
            npt: 6,
            rho_begin: 1.0,
            rho_end: 1e-08,
            max_fun: 300,
            f_target: f64::NEG_INFINITY,
            asked: 0x635a020cc12d464d,
            n_eval: 135,
            kernels: 204,
            status: Status::Converged,
            f_bits: 0xc38bc16d674ec801,
            x_bits: vec![0x3ff00000517e76bc, 0xc1bdcd64ff1b3dc8],
        },
        Run {
            name: "rosenbrock cut off",
            f: rosenbrock,
            x0: vec![-1.2, 1.0],
            lower: vec![-2.0; 2],
            upper: vec![0.5, 2.0],
            npt: 6,
            rho_begin: 0.3,
            rho_end: 1e-09,
            max_fun: 400,
            f_target: f64::NEG_INFINITY,
            asked: 0x5dd16f6e9a9ac784,
            n_eval: 92,
            kernels: 188,
            status: Status::Converged,
            f_bits: 0x3fd0000000000000,
            x_bits: vec![0x3fe0000000000000, 0x3fd0000000000783],
        },
        Run {
            name: "rosenbrock with a target",
            f: rosenbrock,
            x0: vec![-1.2, 1.0],
            lower: vec![-5.0; 2],
            upper: vec![5.0; 2],
            npt: 5,
            rho_begin: 0.5,
            rho_end: 1e-06,
            max_fun: 500,
            f_target: 0.1,
            asked: 0x7792d13aed08df13,
            n_eval: 100,
            kernels: 172,
            status: Status::TargetReached,
            f_bits: 0x3fb514a0f47dda8a,
            x_bits: vec![0x3fe6d52dedaa09f8, 0x3fe03d09bcf32cb5],
        },
        Run {
            name: "rosenbrock with a small budget",
            f: rosenbrock,
            x0: vec![-1.2, 1.0],
            lower: vec![-5.0; 2],
            upper: vec![5.0; 2],
            npt: 5,
            rho_begin: 0.5,
            rho_end: 1e-06,
            max_fun: 30,
            f_target: f64::NEG_INFINITY,
            asked: 0x48b3255f1193902e,
            n_eval: 30,
            kernels: 42,
            status: Status::MaxFunReached,
            f_bits: 0x4005d2a19867a1c2,
            x_bits: vec![0xbfe4bc793b920c99, 0x3fda2cfa1b268b28],
        },
        Run {
            name: "far sphere",
            f: far_sphere,
            x0: vec![0.0; 3],
            lower: vec![-1000000000.0; 3],
            upper: vec![1000000000.0; 3],
            npt: 7,
            rho_begin: 1000.0,
            rho_end: 1e-05,
            max_fun: 600,
            f_target: f64::NEG_INFINITY,
            asked: 0x695a69c313df6ea7,
            n_eval: 43,
            kernels: 101,
            status: Status::Converged,
            f_bits: 0x0000000000000000,
            x_bits: vec![0x412e848000000000, 0x412e848000000000, 0x412e848000000000],
        },
        Run {
            name: "one variable",
            f: quartic,
            x0: vec![1.0],
            lower: vec![-5.0],
            upper: vec![5.0],
            npt: 3,
            rho_begin: 0.5,
            rho_end: 1e-07,
            max_fun: 200,
            f_target: f64::NEG_INFINITY,
            asked: 0xf4a8324ef3d9d619,
            n_eval: 14,
            kernels: 25,
            status: Status::Converged,
            f_bits: 0x3fcce067fdc2326f,
            x_bits: vec![0x3fc9a73e8148ac2c],
        },
    ]
}

#[test]
fn runs_replay_bit_for_bit() {
    for run in &runs() {
        replay(run);
    }
}
