use bobyqa::consts::INFO_DFT;
use bobyqa::float::F64;
use bobyqa::initialize::{inith, initq, order_points, pair_points, start_bounds, start_points};
use bobyqa::mat::Mat;
use bobyqa::powalg::setij;

fn num(v: f64) -> F64 {
    F64::from_bits(v.to_bits())
}

fn back(v: F64) -> f64 {
    f64::from_bits(v.to_bits())
}

fn vector(v: &[f64]) -> Vec<F64> {
    v.iter().map(|x| num(*x)).collect()
}

fn floats(v: &[F64]) -> Vec<f64> {
    v.iter().map(|x| back(*x)).collect()
}

#[test]
fn the_start_is_moved_onto_a_bound_that_it_touches() {
    let mut x = vector(&[0.0, -2.0, 2.0]);
    let (mut sl, mut su) = (vector(&[0.0; 3]), vector(&[0.0; 3]));
    let (xl, xu) = (vector(&[-2.0; 3]), vector(&[2.0; 3]));
    start_bounds(num(0.5), &xl, &xu, &mut x, &mut sl, &mut su);
    assert_eq!(floats(&x), vec![0.0, -2.0, 2.0]);
    assert_eq!(floats(&sl), vec![-2.0, 0.0, -4.0]);
    assert_eq!(floats(&su), vec![2.0, 4.0, 0.0]);
}

#[test]
fn the_initial_points_lie_on_the_coordinate_directions() {
    let (sl, su) = (vector(&[-2.0, 0.0]), vector(&[2.0, 4.0]));
    let mut xpt = Mat::zeros(2, 6);
    start_points(num(0.5), &sl, &su, &mut xpt);
    assert_eq!(
        floats(&xpt.data()),
        vec![0.0, 0.0, 0.5, 0.0, 0.0, 0.5, -0.5, 0.0, 0.0, 1.0, 0.0, 0.0]
    );
}

#[test]
fn the_better_one_of_two_opposite_points_comes_first() {
    let (sl, su) = (vector(&[-2.0, -2.0]), vector(&[2.0, 2.0]));
    let mut xpt = Mat::zeros(2, 6);
    start_points(num(0.5), &sl, &su, &mut xpt);
    let mut fval = vector(&[5.0, 6.25, 7.25, 4.25, 8.0, 0.0]);
    order_points(&mut fval, &mut xpt);
    assert_eq!(floats(&fval), vec![5.0, 4.25, 7.25, 6.25, 8.0, 0.0]);
    assert_eq!(floats(xpt.col(1)), vec![-0.5, 0.0]);
    assert_eq!(floats(xpt.col(3)), vec![0.5, 0.0]);
    pair_points(&setij(2, 6), &mut xpt);
    assert_eq!(floats(xpt.col(5)), vec![-0.5, 0.5]);
}

#[test]
fn the_first_model_of_a_quadratic_is_exact() {
    let (n, npt) = (2, 6);
    let f = |x: f64, y: f64| 1.0 + x - 2.0 * y + x * x + 3.0 * x * y + 2.0 * y * y;
    let points = [
        (0.0, 0.0),
        (0.5, 0.0),
        (0.0, 0.5),
        (-0.5, 0.0),
        (0.0, -0.5),
        (0.5, 0.5),
    ];
    let data: Vec<f64> = points.iter().flat_map(|p| [p.0, p.1]).collect();
    let xpt = Mat::from_col_major(n, npt, vector(&data));
    let values: Vec<f64> = points.iter().map(|p| f(p.0, p.1)).collect();
    let ij = setij(n, npt);
    let (mut gopt, mut pq, mut shift) = (vector(&[0.0; 2]), vector(&[0.0; 6]), vector(&[0.0; 2]));
    let mut hq = Mat::zeros(n, n);
    let info = initq(
        &ij,
        &vector(&values),
        &xpt,
        &mut gopt,
        &mut hq,
        &mut pq,
        &mut shift,
    );
    assert_eq!(info, INFO_DFT);
    assert_eq!(floats(&hq.data()), vec![2.0, 3.0, 3.0, 4.0]);
    assert_eq!(floats(&pq), vec![0.0; 6]);
    let best = points[values.iter().enumerate().fold(0, |b, (k, v)| {
        if *v < values[b] {
            k
        } else {
            b
        }
    })];
    let slope = [
        1.0 + 2.0 * best.0 + 3.0 * best.1,
        -2.0 + 3.0 * best.0 + 4.0 * best.1,
    ];
    assert_eq!(floats(&gopt), slope.to_vec());
}

#[test]
fn the_first_inverse_matrix_has_the_slopes_of_the_lagrange_functions() {
    let (n, npt) = (2, 5);
    let data = [0.0, 0.0, 0.5, 0.0, 0.0, 0.5, -0.5, 0.0, 0.0, -0.5];
    let xpt = Mat::from_col_major(n, npt, vector(&data));
    let mut bmat = Mat::zeros(n, npt + n);
    let mut zmat = Mat::zeros(npt, npt - n - 1);
    let info = inith(&[], &xpt, &mut bmat, &mut zmat);
    assert_eq!(info, INFO_DFT);
    assert_eq!(floats(bmat.col(0)), vec![0.0, 0.0]);
    assert_eq!(floats(bmat.col(1)), vec![1.0, 0.0]);
    assert_eq!(floats(bmat.col(3)), vec![-1.0, 0.0]);
    let z = floats(zmat.col(0));
    assert!((z[0] + 2.0 * z[1]).abs() < 1e-12 && z[1] == z[3] && z[2] == 0.0);
}
