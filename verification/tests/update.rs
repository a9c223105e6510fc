use bobyqa::consts::INFO_DFT;
use bobyqa::float::F64;
use bobyqa::mat::Mat;
use bobyqa::update::{tryqalt, updateh, updateq, updatexf, UpdateWs};

fn num(v: f64) -> F64 {
    F64::from_bits(v.to_bits())
}

fn back(v: F64) -> f64 {
    f64::from_bits(v.to_bits())
}

fn vector(v: &[f64]) -> Vec<F64> {
    v.iter().map(|x| num(*x)).collect()
}

fn floats(v: &[F64]) -> Vec<f64> {
    v.iter().map(|x| back(*x)).collect()
}

fn matrix(nrows: usize, ncols: usize, data: &[f64]) -> Mat {
    Mat::from_col_major(nrows, ncols, vector(data))
}

#[test]
fn updateh_with_no_knew_leaves_h_untouched() {
    let xpt = Mat::zeros(1, 4);
    let mut bmat = matrix(1, 5, &[1.0, 2.0, 3.0, 4.0, 5.0]);
    let eight: Vec<f64> = (0..8).map(f64::from).collect();
    let mut zmat = matrix(4, 2, &eight);
    let (b0, z0) = (bmat.data(), zmat.data());
    let mut ws = UpdateWs::new(xpt.nrows(), xpt.ncols());
    let d = vector(&[0.0]);
    let info = updateh(None, 0, &d, &xpt, &mut bmat, &mut zmat, &mut ws, None);
    assert_eq!(info, INFO_DFT);
    assert_eq!(bmat.data(), b0);
    assert_eq!(zmat.data(), z0);
}

#[test]
fn updatexf_without_improvement_keeps_kopt() {
    let mut xpt = Mat::zeros(1, 4);
    let mut fval = vector(&[3.0, 1.0, 4.0, 5.0]);
    let mut kopt = 1;
    let xnew = vector(&[0.5]);
    updatexf(Some(2), false, num(2.0), &xnew, &mut kopt, &mut fval, &mut xpt);
    assert_eq!(kopt, 1);
    assert_eq!(back(fval[2]), 2.0);
    assert_eq!(back(xpt.get(0, 2)), 0.5);
}

#[test]
fn updatexf_with_improvement_moves_kopt() {
    let mut xpt = Mat::zeros(1, 4);
    let mut fval = vector(&[3.0, 1.0, 4.0, 5.0]);
    let mut kopt = 1;
    let xnew = vector(&[0.5]);
    updatexf(Some(2), true, num(0.5), &xnew, &mut kopt, &mut fval, &mut xpt);
    assert_eq!(kopt, 2);
}

#[test]
fn updatexf_with_no_knew_is_a_silent_no_op() {
    let mut xpt = matrix(1, 4, &[1.0, 2.0, 3.0, 4.0]);
    let mut fval = vector(&[3.0, 1.0, 4.0, 5.0]);
    let mut kopt = 1;
    let (x0, f0) = (xpt.data(), fval.clone());
    let xnew = vector(&[7.0]);
    updatexf(None, true, num(9.0), &xnew, &mut kopt, &mut fval, &mut xpt);
    assert_eq!(kopt, 1);
    assert_eq!(fval, f0);
    assert_eq!(xpt.data(), x0);
}

#[test]
fn updateq_with_no_knew_is_a_silent_no_op() {
    let (n, npt) = (1, 4);
    let bmat = Mat::zeros(n, npt + n);
    let zmat = Mat::zeros(npt, npt - n - 1);
    let xpt = Mat::zeros(n, npt);
    let mut gopt = vector(&[5.0]);
    let mut hq = matrix(1, 1, &[7.0]);
    let mut pq = vector(&[1.0, 2.0, 3.0, 4.0]);
    let (g0, h0, p0) = (gopt.clone(), hq.data(), pq.clone());
    let mut ws = UpdateWs::new(n, npt);
    let nothing = vector(&[0.0]);
    updateq(
        None,
        true,
        &bmat,
        &nothing,
        num(0.5),
        &nothing,
        &nothing,
        &xpt,
        &zmat,
        &mut gopt,
        &mut hq,
        &mut pq,
        &mut ws,
    );
    assert_eq!(gopt, g0);
    assert_eq!(hq.data(), h0);
    assert_eq!(pq, p0);
}

fn run_tryqalt(ratio: f64, itest: &mut i32) -> (Vec<f64>, f64, Vec<f64>) {
    let (n, npt) = (1, 4);
    let bmat = Mat::zeros(n, npt + n);
    let zmat = Mat::zeros(npt, npt - n - 1);
    let xpt = Mat::zeros(n, npt);
    let fval = vector(&[0.0; 4]);
    let (sl, su, xopt) = (vector(&[-1.0]), vector(&[1.0]), vector(&[0.0]));
    let mut gopt = vector(&[5.0]);
    let mut hq = matrix(1, 1, &[7.0]);
    let mut pq = vector(&[1.0; 4]);
    let mut ws = UpdateWs::new(n, npt);
    tryqalt(
        &bmat,
        &fval,
        num(ratio),
        &sl,
        &su,
        &xopt,
        &xpt,
        &zmat,
        itest,
        &mut gopt,
        &mut hq,
        &mut pq,
        &mut ws,
    );
    (floats(&gopt), back(hq.get(0, 0)), floats(&pq))
}

#[test]
fn tryqalt_replaces_the_model_on_the_third_consecutive_failure() {
    let mut itest = 2;
    let (gopt, hq, pq) = run_tryqalt(0.0, &mut itest);
    assert_eq!(itest, 0);
    assert_eq!(gopt, vec![0.0]);
    assert_eq!(hq, 0.0);
    assert_eq!(pq, vec![0.0; 4]);
}

#[test]
fn tryqalt_resets_itest_when_only_the_ratio_is_good() {
    let mut itest = 1;
    run_tryqalt(0.5, &mut itest);
    assert_eq!(itest, 0);
}

#[test]
fn tryqalt_counts_a_failure_and_keeps_the_model() {
    let mut itest = 0;
    let (gopt, hq, pq) = run_tryqalt(0.0, &mut itest);
    assert_eq!(itest, 1);
    assert_eq!((gopt, hq, pq), (vec![5.0], 7.0, vec![1.0; 4]));
}
