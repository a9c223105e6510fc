use bobyqa::consts::{
    funcmax, FTARGET_ACHIEVED, INFO_DFT, MAXFUN_REACHED, NAN_INF_F, NAN_INF_X,
};
use bobyqa::float::F64;
use bobyqa::util::{checkexit, evaluate, interval_max, linspace_into, moderatef, moderatex, xinbd};

fn num(v: f64) -> F64 {
    F64::from_bits(v.to_bits())
}

fn back(v: F64) -> f64 {
    f64::from_bits(v.to_bits())
}

fn vector(v: &[f64]) -> Vec<F64> {
    v.iter().map(|x| num(*x)).collect()
}

fn floats(v: &[F64]) -> Vec<f64> {
    v.iter().map(|x| back(*x)).collect()
}

fn exit(maxfun: usize, nf: usize, f: f64, ftarget: f64, x: &[f64]) -> i32 {
    checkexit(maxfun, nf, num(f), num(ftarget), &vector(x))
}

#[test]
fn moderatef_caps_nan_and_huge_values() {
    assert_eq!(moderatef(num(f64::NAN)), funcmax());
    assert_eq!(moderatef(num(f64::INFINITY)), funcmax());
    assert_eq!(moderatef(num(1.0e40)), funcmax());
    assert_eq!(back(moderatef(num(-f64::INFINITY))), -f64::MAX);
    assert_eq!(back(moderatef(num(1.5))), 1.5);
}

#[test]
fn moderatex_replaces_nan_and_clamps_to_realmax() {
    assert_eq!(
        floats(&moderatex(&vector(&[f64::NAN, f64::INFINITY, 2.0]))),
        vec![0.0, f64::MAX, 2.0]
    );
}

#[test]
fn evaluate_moderates_input_and_output() {
    let mut one = vector(&[0.0]);
    let mut two = vector(&[0.0; 2]);
    let mut nan_objective = |_: &[F64]| num(f64::NAN);
    assert_eq!(evaluate(&mut nan_objective, &vector(&[1.0]), &mut one), funcmax());
    let mut sum = |x: &[F64]| num(x.iter().map(|v| back(*v)).sum::<f64>());
    assert_eq!(back(evaluate(&mut sum, &vector(&[1.0, 2.0]), &mut two)), 3.0);
    assert!(back(evaluate(&mut sum, &vector(&[f64::NAN]), &mut one)).is_nan());
}

#[test]
fn evaluate_hands_out_the_moderated_point() {
    let mut seen = Vec::new();
    let mut objective = |x: &[F64]| {
        seen.push(floats(x));
        num(1.0)
    };
    let mut xmod = vector(&[0.0; 2]);
    evaluate(&mut objective, &vector(&[f64::NEG_INFINITY, 4.0]), &mut xmod);
    assert_eq!(seen, vec![vec![-f64::MAX, 4.0]]);
}

#[test]
fn checkexit_reports_the_prima_exit_codes_with_prima_precedence() {
    assert_eq!(exit(100, 5, 1.0, -f64::INFINITY, &[0.0]), INFO_DFT);
    assert_eq!(exit(100, 5, 1.0, 2.0, &[0.0]), FTARGET_ACHIEVED);
    assert_eq!(exit(100, 100, 1.0, -f64::INFINITY, &[0.0]), MAXFUN_REACHED);
    assert_eq!(exit(100, 5, 1.0, -f64::INFINITY, &[f64::INFINITY]), NAN_INF_X);
    assert_eq!(exit(100, 5, f64::NAN, -f64::INFINITY, &[0.0]), NAN_INF_F);
    assert_eq!(exit(5, 5, 1.0, 2.0, &[0.0]), MAXFUN_REACHED);
}

#[test]
fn xinbd_pins_x_to_the_exact_bound_when_the_step_hits_it() {
    let xbase = vector(&[0.5, 0.5]);
    let (xl, xu) = (vector(&[0.0, 0.0]), vector(&[1.0, 1.0]));
    let (sl, su) = (vector(&[-0.5, -0.5]), vector(&[0.5, 0.5]));
    let x = xinbd(&xbase, &vector(&[0.7, 0.0]), &xl, &xu, &sl, &su);
    assert_eq!(floats(&x), vec![1.0, 0.5]);
    let x = xinbd(&xbase, &vector(&[-0.6, 0.2]), &xl, &xu, &sl, &su);
    assert_eq!(floats(&x), vec![0.0, 0.7]);
}

#[test]
fn interval_max_finds_the_grid_maximum() {
    let f = |x: F64, _: &[F64]| num(back(x) * (1.0 - back(x)));
    let (mut xgrid, mut fgrid) = (vector(&[0.0; 50]), vector(&[0.0; 50]));
    let x = interval_max(f, num(0.0), num(1.0), &[], 50, &mut xgrid, &mut fgrid);
    assert!((back(x) - 0.5).abs() <= 0.5 / 50.0 + 1e-12);
}

#[test]
fn interval_max_keeps_the_ends_and_passes_over_nan() {
    let (mut xgrid, mut fgrid) = (vector(&[0.0; 5]), vector(&[0.0; 5]));
    let rising = |x: F64, _: &[F64]| x;
    let x = interval_max(rising, num(-1.0), num(2.0), &[], 5, &mut xgrid, &mut fgrid);
    assert_eq!(back(x), 2.0);
    let nowhere = |_: F64, _: &[F64]| num(f64::NAN);
    let x = interval_max(nowhere, num(-1.0), num(2.0), &[], 5, &mut xgrid, &mut fgrid);
    assert_eq!(back(x), -1.0);
    let x = interval_max(rising, num(3.0), num(2.0), &[], 5, &mut xgrid, &mut fgrid);
    assert_eq!(back(x), 3.0);
}

#[test]
fn the_grid_has_exact_ends_and_an_exact_middle() {
    let mut x = vector(&[0.0; 5]);
    linspace_into(num(-0.3), num(0.3), 5, &mut x);
    assert_eq!(floats(&x), vec![-0.3, -0.15, 0.0, 0.15, 0.3]);
    linspace_into(num(1.0), num(2.0), 5, &mut x);
    assert_eq!(floats(&x), vec![1.0, 1.25, 1.5, 1.75, 2.0]);
}
