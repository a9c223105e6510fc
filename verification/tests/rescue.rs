use bobyqa::consts::{zero, INFO_DFT, MAXFUN_REACHED};
use bobyqa::float::F64;
use bobyqa::model::Model;
use bobyqa::rescue::{rescue_begin, RescueWs};

fn num(v: f64) -> F64 {
    F64::from_bits(v.to_bits())
}

fn back(v: F64) -> f64 {
    f64::from_bits(v.to_bits())
}

fn vector(v: &[f64]) -> Vec<F64> {
    v.iter().map(|x| num(*x)).collect()
}

fn model(n: usize, npt: usize) -> Model {
    let mut m = Model::new(n, npt);
    m.fval = vector(&vec![1.0; npt]);
    m.sl = vector(&vec![-1.0; n]);
    m.su = vector(&vec![1.0; n]);
    m.bmat.fill(num(1.0));
    m.zmat.fill(num(1.0));
    m
}

#[test]
fn rescue_at_the_evaluation_budget_returns_maxfun_reached_with_zeroed_h() {
    let (n, npt) = (2, 5);
    let mut m = model(n, npt);
    let mut ws = RescueWs::new(n, npt);
    let nf = 10;
    let (xl, xu) = (vector(&[-1.0; 2]), vector(&[1.0; 2]));
    let info = rescue_begin(10, nf, num(0.5), &xl, &xu, &mut m, &mut ws);
    assert_eq!(info, MAXFUN_REACHED);
    assert!(m.bmat.data().iter().all(|v| *v == zero()));
    assert!(m.zmat.data().iter().all(|v| *v == zero()));
    assert_eq!(nf, 10);
    assert_eq!(m.fval, vector(&[1.0; 5]));
}

#[test]
fn a_rescue_moves_the_base_point_to_the_best_point() {
    let (n, npt) = (2, 5);
    let mut m = model(n, npt);
    m.xpt.set_col(3, &vector(&[0.5, -0.25]));
    m.kopt = 3;
    let mut ws = RescueWs::new(n, npt);
    let (xl, xu) = (vector(&[-1.0; 2]), vector(&[1.0; 2]));
    let info = rescue_begin(100, 10, num(0.5), &xl, &xu, &mut m, &mut ws);
    assert_eq!(info, INFO_DFT);
    assert_eq!(m.xbase, vector(&[0.5, -0.25]));
    assert_eq!(m.kopt, 3);
    assert!(m.xpt.col(3).iter().all(|v| back(*v) == 0.0));
    assert_eq!(m.sl, vector(&[-1.5, -0.75]));
    assert_eq!(m.su, vector(&[0.5, 1.25]));
}
