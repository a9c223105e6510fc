use bobyqa::float::F64;
use bobyqa::mat::Mat;

fn num(v: f64) -> F64 {
    F64::from_bits(v.to_bits())
}

fn back(v: F64) -> f64 {
    f64::from_bits(v.to_bits())
}

fn matrix(nrows: usize, ncols: usize, data: &[f64]) -> Mat {
    Mat::from_col_major(nrows, ncols, data.iter().map(|x| num(*x)).collect())
}

fn floats(v: &[F64]) -> Vec<f64> {
    v.iter().map(|x| back(*x)).collect()
}

#[test]
fn storage_is_column_major_like_fortran() {
    let m = matrix(2, 3, &[1.0, 2.0, 3.0, 4.0, 5.0, 6.0]);
    assert_eq!(back(m.get(0, 0)), 1.0);
    assert_eq!(back(m.get(1, 0)), 2.0);
    assert_eq!(back(m.get(0, 1)), 3.0);
    assert_eq!(back(m.get(1, 2)), 6.0);
}

#[test]
fn columns_are_contiguous_slices() {
    let m = matrix(2, 3, &[1.0, 2.0, 3.0, 4.0, 5.0, 6.0]);
    assert_eq!(floats(m.col(1)), vec![3.0, 4.0]);
}

#[test]
fn zeros_has_the_requested_shape() {
    let mut m = Mat::zeros(3, 2);
    assert_eq!((m.nrows(), m.ncols()), (3, 2));
    m.set(2, 1, num(7.0));
    assert_eq!(floats(m.col(1)), vec![0.0, 0.0, 7.0]);
    let mut first = m.col(0).to_vec();
    first[1] = num(5.0);
    m.set_col(0, &first);
    assert_eq!(back(m.get(1, 0)), 5.0);
}

#[test]
fn fill_and_copy_overwrite_every_entry() {
    let mut m = Mat::zeros(2, 2);
    m.fill(num(3.0));
    assert_eq!(floats(&m.data()), vec![3.0; 4]);
    let mut z = matrix(2, 2, &[1.0, 2.0, 3.0, 4.0]);
    z.copy_from(&m);
    assert_eq!(floats(&z.data()), vec![3.0; 4]);
    z.fill_col(1, num(-1.0));
    assert_eq!(floats(&z.data()), vec![3.0, 3.0, -1.0, -1.0]);
}
