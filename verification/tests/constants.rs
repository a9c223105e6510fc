use bobyqa::consts;
use bobyqa::float::F64;

fn back(v: F64) -> f64 {
    f64::from_bits(v.to_bits())
}

#[test]
fn funcmax_matches_the_fortran_formula_for_f64() {
    assert_eq!(back(consts::funcmax()), 10.0_f64.powi(30.min(307 / 2).max(4)));
}

#[test]
fn boundmax_is_a_quarter_of_realmax() {
    assert_eq!(back(consts::boundmax()), f64::MAX / 4.0);
}
