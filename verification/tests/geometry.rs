use bobyqa::float::F64;
use bobyqa::geometry::{geostep, setdrop_tr, GeostepWs};
use bobyqa::initialize::inith;
use bobyqa::linalg::norm;
use bobyqa::mat::Mat;

fn num(v: f64) -> F64 {
    F64::from_bits(v.to_bits())
}

fn back(v: F64) -> f64 {
    f64::from_bits(v.to_bits())
}

fn vector(v: &[f64]) -> Vec<F64> {
    v.iter().map(|x| num(*x)).collect()
}

fn matrix(nrows: usize, ncols: usize, data: &[f64]) -> Mat {
    Mat::from_col_major(nrows, ncols, vector(data))
}

const CROSS: [f64; 10] = [0.0, 0.0, 0.5, 0.0, 0.0, 0.5, -0.5, 0.0, 0.0, -0.5];

#[test]
fn setdrop_tr_without_improvement_never_drops_kopt() {
    let n = 2usize;
    let npt = 5usize;
    let xpt = matrix(n, npt, &CROSS);
    let bmat = Mat::zeros(n, npt + n);
    let zmat = matrix(
        npt,
        npt - n - 1,
        &[
            -5.656_854_249_492_38,
            2.828_427_124_746_19,
            0.0,
            2.828_427_124_746_19,
            0.0,
            0.0,
            0.0,
            2.828_427_124_746_19,
            -5.656_854_249_492_38,
            2.828_427_124_746_19,
        ],
    );
    let d = vector(&[0.1, 0.1]);
    for kopt in 0..npt {
        let mut ws = GeostepWs::new(n, npt);
        let knew = setdrop_tr(kopt, false, &bmat, &d, num(1.0), num(0.5), &xpt, &zmat, &mut ws);
        assert!(
            knew != Some(kopt),
            "setdrop_tr with ximproved=false returned kopt={kopt}"
        );
    }
}

#[test]
fn setdrop_tr_excludes_kopt_even_when_it_would_otherwise_win() {
    let (n, npt, kopt) = (1, 3, 0);
    let mut bmat = Mat::zeros(n, npt + n);
    bmat.set(0, 0, num(3.0));
    let zmat = Mat::zeros(npt, npt - n - 1);
    let xpt = Mat::zeros(n, npt);
    let mut ws = GeostepWs::new(n, npt);
    let d = vector(&[1.0]);
    let knew = setdrop_tr(kopt, false, &bmat, &d, num(1.0), num(1.0), &xpt, &zmat, &mut ws);
    assert_eq!(knew, None);
}

#[test]
fn setdrop_tr_with_an_improvement_always_drops_a_point() {
    let (n, npt, kopt) = (1, 3, 0);
    let mut bmat = Mat::zeros(n, npt + n);
    bmat.set(0, 0, num(3.0));
    let zmat = Mat::zeros(npt, npt - n - 1);
    let xpt = Mat::zeros(n, npt);
    let mut ws = GeostepWs::new(n, npt);
    let d = vector(&[1.0]);
    let knew = setdrop_tr(kopt, true, &bmat, &d, num(1.0), num(1.0), &xpt, &zmat, &mut ws);
    assert_eq!(knew, Some(0));
}

#[test]
fn a_geometry_step_is_not_zero_and_stays_inside_the_bounds() {
    let (n, npt, kopt) = (2, 5, 1);
    let xpt = matrix(n, npt, &CROSS);
    let mut bmat = Mat::zeros(n, npt + n);
    let mut zmat = Mat::zeros(npt, npt - n - 1);
    inith(&[], &xpt, &mut bmat, &mut zmat);
    let (sl, su) = (vector(&[-1.0, -0.25]), vector(&[0.75, 0.25]));
    for knew in [0, 2, 3, 4] {
        for delbar in [0.5, 1e-3] {
            let mut d = vector(&[0.0; 2]);
            let mut ws = GeostepWs::new(n, npt);
            geostep(knew, kopt, &bmat, num(delbar), &sl, &su, &xpt, &zmat, &mut d, &mut ws);
            assert!(back(norm(&d)) > 0.0, "zero step for point {knew}");
            for i in 0..n {
                let x = back(xpt.get(i, kopt)) + back(d[i]);
                assert!(x >= back(sl[i]) - 1e-12 && x <= back(su[i]) + 1e-12);
            }
        }
    }
}

#[test]
fn a_geometry_step_is_not_longer_than_twice_the_radius() {
    let (n, npt, kopt) = (2, 5, 1);
    let xpt = matrix(n, npt, &CROSS);
    let mut bmat = Mat::zeros(n, npt + n);
    let mut zmat = Mat::zeros(npt, npt - n - 1);
    inith(&[], &xpt, &mut bmat, &mut zmat);
    let (sl, su) = (vector(&[-1.0, -1.0]), vector(&[0.75, 2.0]));
    for knew in [0, 2, 3, 4] {
        for delbar in [3.0, 0.5, 0.02, 1e-3, 1e-9] {
            let mut d = vector(&[0.0; 2]);
            let mut ws = GeostepWs::new(n, npt);
            geostep(knew, kopt, &bmat, num(delbar), &sl, &su, &xpt, &zmat, &mut d, &mut ws);
            let size = back(norm(&d));
            assert!(0.0 < size && size <= 2.0 * delbar, "{size:e} for {delbar:e}");
        }
    }
}

#[test]
fn a_geometry_step_can_be_lost_in_the_rounding_of_the_best_point() {
    let far = 9_007_199_254_740_992.0;
    let xpt = matrix(1, 3, &[far, far + 4.0, far - 4.0]);
    let (bmat, zmat) = (Mat::zeros(1, 4), Mat::zeros(3, 1));
    let (sl, su) = (vector(&[0.0]), vector(&[2.0 * far]));
    let mut d = vector(&[1.0]);
    let mut ws = GeostepWs::new(1, 3);
    geostep(1, 0, &bmat, num(0.1), &sl, &su, &xpt, &zmat, &mut d, &mut ws);
    assert_eq!(back(d[0]), 0.0);
    geostep(1, 0, &bmat, num(2.0), &sl, &su, &xpt, &zmat, &mut d, &mut ws);
    assert_eq!(back(d[0]).abs(), 2.0);
}
