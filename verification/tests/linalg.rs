use bobyqa::float::F64;
use bobyqa::linalg::{
    diag, inprod, issymmetric, matprod12, matprod21, matprod22, norm, outprod, planerot, r1update,
    r2update, symmetrize, trueloc,
};
use bobyqa::mat::Mat;

fn num(v: f64) -> F64 {
    F64::from_bits(v.to_bits())
}

fn back(v: F64) -> f64 {
    f64::from_bits(v.to_bits())
}

fn vector(v: &[f64]) -> Vec<F64> {
    v.iter().map(|x| num(*x)).collect()
}

fn floats(v: &[F64]) -> Vec<f64> {
    v.iter().map(|x| back(*x)).collect()
}

fn matrix(nrows: usize, ncols: usize, data: &[f64]) -> Mat {
    Mat::from_col_major(nrows, ncols, vector(data))
}

fn norm_of(v: &[f64]) -> f64 {
    back(norm(&vector(v)))
}

fn rotation(x: [f64; 2]) -> [[f64; 2]; 2] {
    let ((a, b), (c, d)) = planerot(num(x[0]), num(x[1]));
    [[back(a), back(b)], [back(c), back(d)]]
}

#[test]
fn inprod_is_the_dot_product_in_order() {
    let z = inprod(&vector(&[1.0, 2.0, 3.0]), &vector(&[4.0, 5.0, 6.0]));
    assert_eq!(back(z), 32.0);
}

#[test]
fn matprod21_multiplies_matrix_by_column() {
    let a = matrix(2, 2, &[1.0, 2.0, 3.0, 4.0]);
    assert_eq!(floats(&matprod21(&a, &vector(&[5.0, 6.0]))), vec![23.0, 34.0]);
}

#[test]
fn matprod12_multiplies_row_by_matrix() {
    let a = matrix(2, 2, &[1.0, 2.0, 3.0, 4.0]);
    assert_eq!(floats(&matprod12(&vector(&[5.0, 6.0]), &a)), vec![17.0, 39.0]);
}

#[test]
fn matprod22_multiplies_two_matrices() {
    let a = matrix(2, 2, &[1.0, 2.0, 3.0, 4.0]);
    let b = matrix(2, 2, &[5.0, 6.0, 7.0, 8.0]);
    assert_eq!(floats(&matprod22(&a, &b).data()), vec![23.0, 34.0, 31.0, 46.0]);
}

#[test]
fn outprod_builds_x_y_transposed() {
    let m = outprod(&vector(&[1.0, 2.0]), &vector(&[3.0, 4.0]));
    assert_eq!(floats(&m.data()), vec![3.0, 6.0, 4.0, 8.0]);
}

#[test]
fn norm_is_the_euclidean_norm_with_overflow_rescue() {
    assert_eq!(norm_of(&[3.0, 4.0]), 5.0);
    assert_eq!(norm_of(&[]), 0.0);
    assert_eq!(norm_of(&[0.0, 0.0]), 0.0);
    let big = norm_of(&[1.0e300, 1.0e300]);
    assert!((big / 1.0e300 - core::f64::consts::SQRT_2).abs() < 1e-15);
    assert!((norm_of(&[2.0e300, 1.0e300]) / 1.0e300 - 5.0_f64.sqrt()).abs() < 1e-14);
    assert_eq!(norm_of(&[f64::INFINITY, 1.0]), f64::INFINITY);
    assert!(norm_of(&[f64::NAN, 1.0]).is_nan());
}

#[test]
fn diag_extracts_the_main_diagonal() {
    let a = matrix(2, 2, &[1.0, 2.0, 3.0, 4.0]);
    assert_eq!(floats(&diag(&a)), vec![1.0, 4.0]);
}

#[test]
fn trueloc_returns_zero_based_positions() {
    assert_eq!(trueloc(&[false, true, false, true]), vec![1, 3]);
}

#[test]
fn planerot_zeroes_the_second_component() {
    let g = rotation([3.0, 4.0]);
    let y2 = g[1][0] * 3.0 + g[1][1] * 4.0;
    let y1 = g[0][0] * 3.0 + g[0][1] * 4.0;
    assert!(y2.abs() < 1e-15);
    assert!((y1 - 5.0).abs() < 1e-15);
}

#[test]
fn planerot_handles_the_nan_inf_zero_and_near_axis_branches() {
    let r = 0.707_106_781_186_547_5_f64;
    assert_eq!(rotation([f64::NAN, 1.0]), [[1.0, 0.0], [0.0, 1.0]]);
    assert_eq!(rotation([1.0, f64::NAN]), [[1.0, 0.0], [0.0, 1.0]]);
    assert_eq!(rotation([f64::INFINITY, f64::INFINITY]), [[r, r], [-r, r]]);
    assert_eq!(rotation([f64::INFINITY, f64::NEG_INFINITY]), [[r, -r], [r, r]]);
    assert_eq!(rotation([0.0, 0.0]), [[1.0, 0.0], [0.0, 1.0]]);
    assert_eq!(rotation([-2.0, 1e-300]), [[-1.0, 0.0], [0.0, -1.0]]);
    assert_eq!(rotation([1e-300, -3.0]), [[0.0, -1.0], [1.0, 0.0]]);
    assert_eq!(rotation([f64::INFINITY, 1.0]), [[1.0, 0.0], [0.0, 1.0]]);
    assert_eq!(rotation([1.0, f64::NEG_INFINITY]), [[0.0, -1.0], [1.0, 0.0]]);
    for x in [
        [1.0e-200, 1.0e-210],
        [1.0e-210, -1.0e-200],
        [1.0e-200, 5.0e-201],
        [5.0e-201, 1.0e-200],
    ] {
        let g = rotation(x);
        let y0 = g[0][0] * x[0] + g[0][1] * x[1];
        let y1 = g[1][0] * x[0] + g[1][1] * x[1];
        let nx = norm_of(&x);
        assert!((y0 - nx).abs() <= 1e-14 * nx, "G*x[0] != norm(x) for {x:?}");
        assert!(y1.abs() <= 1e-14 * nx, "G*x[1] != 0 for {x:?}");
        assert!(
            (g[0][0] * g[0][0] + g[0][1] * g[0][1] - 1.0).abs() < 1e-14,
            "G not orthogonal for {x:?}"
        );
    }
}

#[test]
fn r1update_adds_alpha_x_x_transposed() {
    let mut a = Mat::zeros(2, 2);
    r1update(&mut a, num(2.0), &vector(&[1.0, 3.0]));
    assert_eq!(floats(&a.data()), vec![2.0, 6.0, 6.0, 18.0]);
}

#[test]
fn r2update_adds_the_symmetric_cross_terms() {
    let mut a = Mat::zeros(2, 2);
    r2update(&mut a, num(1.0), &vector(&[1.0, 0.0]), &vector(&[0.0, 1.0]));
    assert_eq!(floats(&a.data()), vec![0.0, 1.0, 1.0, 0.0]);
    let mut b = Mat::zeros(2, 2);
    r2update(&mut b, num(1.0), &vector(&[1.0, 1.0]), &vector(&[1.0, 2.0]));
    assert_eq!(floats(&b.data()), vec![2.0, 3.0, 3.0, 4.0]);
}

#[test]
fn issymmetric_and_symmetrize_agree() {
    let mut a = matrix(2, 2, &[1.0, 2.0, 2.0 + 1.0e-16, 4.0]);
    assert!(issymmetric(&a));
    a.set(0, 1, num(9.0));
    assert!(!issymmetric(&a));
    symmetrize(&mut a);
    assert!(issymmetric(&a));
}
