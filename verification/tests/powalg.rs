use bobyqa::float::F64;
use bobyqa::mat::Mat;
use bobyqa::powalg::counters::calvlag_noadd_calls;
use bobyqa::powalg::{calden_into, calvlag_and_den_into, hess_mul, quadinc, setij, CalWs};

fn num(v: f64) -> F64 {
    F64::from_bits(v.to_bits())
}

fn back(v: F64) -> f64 {
    f64::from_bits(v.to_bits())
}

fn vector(v: &[f64]) -> Vec<F64> {
    v.iter().map(|x| num(*x)).collect()
}

fn floats(v: &[F64]) -> Vec<f64> {
    v.iter().map(|x| back(*x)).collect()
}

fn matrix(nrows: usize, ncols: usize, data: &[f64]) -> Mat {
    Mat::from_col_major(nrows, ncols, vector(data))
}

#[test]
fn setij_yields_valid_distinct_pairs_of_the_right_count() {
    for (n, npt) in [(2, 6), (3, 10), (10, 30)] {
        let ij = setij(n, npt);
        assert_eq!(ij.len(), npt - 2 * n - 1);
        for &(i, j) in &ij {
            assert!(i < n && j < n && i != j, "bad pair ({i}, {j}) for n={n}");
        }
    }
}

#[test]
fn setij_is_empty_at_powells_default_npt() {
    assert!(setij(2, 5).is_empty());
}

#[test]
fn hess_mul_combines_explicit_and_implicit_parts() {
    let xpt = matrix(1, 3, &[1.0, 2.0, 0.0]);
    let hq = matrix(1, 1, &[2.0]);
    let pq = vector(&[1.0, 2.0, 0.0]);
    assert_eq!(floats(&hess_mul(&vector(&[3.0]), &xpt, &pq, Some(&hq))), vec![33.0]);
    assert_eq!(floats(&hess_mul(&vector(&[3.0]), &xpt, &pq, None)), vec![27.0]);
}

#[test]
fn quadinc_evaluates_the_model_increment() {
    let xpt = matrix(1, 3, &[1.0, 2.0, 0.0]);
    let hq = Mat::zeros(1, 1);
    let (mut dxpt, mut pqdxpt, mut hqd) = (vector(&[0.0; 3]), vector(&[0.0; 3]), vector(&[0.0]));
    let q = quadinc(
        &vector(&[2.0]),
        &xpt,
        &vector(&[3.0]),
        &vector(&[0.0, 0.0, 0.0]),
        &hq,
        &mut dxpt,
        &mut pqdxpt,
        &mut hqd,
    );
    assert_eq!(back(q), 6.0);
    let hq2 = matrix(1, 1, &[2.0]);
    let q = quadinc(
        &vector(&[2.0]),
        &xpt,
        &vector(&[3.0]),
        &vector(&[1.0, 2.0, 0.0]),
        &hq2,
        &mut dxpt,
        &mut pqdxpt,
        &mut hqd,
    );
    assert_eq!(back(q), 28.0);
}

#[test]
fn calden_into_matches_calvlag_and_den_into() {
    let (n, npt, kref) = (1, 3, 0);
    let bmat = Mat::zeros(n, npt + n);
    let xpt = matrix(n, npt, &[1.0, 2.0, 0.0]);
    let zmat = matrix(npt, npt - n - 1, &[1.0, 0.0, -1.0]);
    let d = vector(&[1.0]);
    let mut cw = CalWs::new(n, npt);
    let mut den_calden = vector(&[0.0; 3]);
    calden_into(kref, &bmat, &d, &xpt, &zmat, &mut cw, &mut den_calden);
    let mut den_fused = vector(&[0.0; 3]);
    let mut vlag = vector(&[0.0; 4]);
    calvlag_and_den_into(
        kref,
        &bmat,
        &d,
        &xpt,
        &zmat,
        &mut cw,
        &mut vlag,
        &mut den_fused,
    );
    assert_eq!(den_calden, den_fused);
    assert_eq!(back(vlag[kref]), 2.5);
    assert_eq!(calvlag_noadd_calls(&cw.count), 2);
}
