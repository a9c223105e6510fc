use bobyqa::float::F64;
use bobyqa::mat::Mat;
use bobyqa::trustregion::{interval_fun_trsbox, trrad, trsbox, TrsboxWs};

fn num(v: f64) -> F64 {
    F64::from_bits(v.to_bits())
}

fn back(v: F64) -> f64 {
    f64::from_bits(v.to_bits())
}

fn vector(v: &[f64]) -> Vec<F64> {
    v.iter().map(|x| num(*x)).collect()
}

fn radius(v: [f64; 7]) -> f64 {
    back(trrad(
        num(v[0]),
        num(v[1]),
        num(v[2]),
        num(v[3]),
        num(v[4]),
        num(v[5]),
        num(v[6]),
    ))
}

#[test]
fn interval_fun_trsbox_is_zero_at_the_origin_and_matches_the_formula() {
    let args = vector(&[1.0, 2.0, 3.0, 4.0, 5.0]);
    assert_eq!(back(interval_fun_trsbox(num(0.0), &args)), 0.0);
    let f = back(interval_fun_trsbox(num(1.0), &args));
    assert!((f - 0.5).abs() < 1e-15);
}

#[test]
fn trrad_takes_the_shrink_keep_and_expand_branches() {
    assert_eq!(radius([1.0, 0.4, 0.1, 0.7, 0.5, 2.0, 0.05]), 0.4);
    assert_eq!(radius([1.0, 0.8, 0.1, 0.7, 0.5, 2.0, 0.5]), 0.8);
    assert_eq!(radius([1.0, 0.8, 0.1, 0.7, 0.5, 2.0, 0.9]), 1.6);
}

fn identity() -> Mat {
    let mut hq = Mat::zeros(2, 2);
    hq.set(0, 0, num(1.0));
    hq.set(1, 1, num(1.0));
    hq
}

#[test]
fn trsbox_takes_the_unconstrained_newton_step_on_a_separable_quadratic() {
    let (n, npt) = (2, 4);
    let xpt = Mat::zeros(n, npt);
    let pq = vector(&[0.0; 4]);
    let (sl, su) = (vector(&[-10.0; 2]), vector(&[10.0; 2]));
    let mut d = vector(&[0.0; 2]);
    let mut ws = TrsboxWs::new(n, npt);
    let crvmin = back(trsbox(
        num(5.0),
        &vector(&[1.0, 0.5]),
        &identity(),
        &pq,
        &sl,
        &su,
        num(1e-2),
        &vector(&[0.0; 2]),
        &xpt,
        &mut d,
        &mut ws,
    ));
    assert!((back(d[0]) + 1.0).abs() < 1e-12 && (back(d[1]) + 0.5).abs() < 1e-12);
    assert!((crvmin - 1.0).abs() < 1e-12);
}

#[test]
fn trsbox_fixes_a_variable_pinned_at_its_bound() {
    let (n, npt) = (2, 4);
    let xpt = Mat::zeros(n, npt);
    let pq = vector(&[0.0; 4]);
    let (sl, su) = (vector(&[-10.0; 2]), vector(&[0.0, 10.0]));
    let mut d = vector(&[0.0; 2]);
    let mut ws = TrsboxWs::new(n, npt);
    trsbox(
        num(5.0),
        &vector(&[-1.0, 1.0]),
        &identity(),
        &pq,
        &sl,
        &su,
        num(1e-2),
        &vector(&[0.0; 2]),
        &xpt,
        &mut d,
        &mut ws,
    );
    assert_eq!(back(d[0]), 0.0);
    assert!((back(d[1]) + 1.0).abs() < 1e-12, "d[1] = {}", back(d[1]));
}

#[test]
fn trsbox_stops_on_the_boundary_of_the_trust_region() {
    let (n, npt) = (2, 4);
    let xpt = Mat::zeros(n, npt);
    let pq = vector(&[0.0; 4]);
    let (sl, su) = (vector(&[-10.0; 2]), vector(&[10.0; 2]));
    let mut d = vector(&[0.0; 2]);
    let mut ws = TrsboxWs::new(n, npt);
    let crvmin = back(trsbox(
        num(0.5),
        &vector(&[3.0, 4.0]),
        &identity(),
        &pq,
        &sl,
        &su,
        num(1e-2),
        &vector(&[0.0; 2]),
        &xpt,
        &mut d,
        &mut ws,
    ));
    assert_eq!(crvmin, 0.0);
    assert!((back(d[0]) + 0.3).abs() < 1e-12 && (back(d[1]) + 0.4).abs() < 1e-12);
}

#[test]
fn the_least_curvature_is_not_below_zero() {
    let (n, npt) = (2, 4);
    let xpt = Mat::zeros(n, npt);
    let pq = vector(&[0.0; 4]);
    let (sl, su) = (vector(&[-1e3; 2]), vector(&[1e3; 2]));
    for curvature in [1.0, -1.0, 0.0, 1e300, f64::NAN, f64::INFINITY] {
        for slope in [1.0, 1e-30, 1e14, f64::INFINITY, f64::NAN] {
            for delta in [1e-3, 1.0, 500.0] {
                let mut hq = identity();
                hq.set(0, 0, num(curvature));
                let mut d = vector(&[0.0; 2]);
                let mut ws = TrsboxWs::new(n, npt);
                let crvmin = back(trsbox(
                    num(delta),
                    &vector(&[slope, 0.5]),
                    &hq,
                    &pq,
                    &sl,
                    &su,
                    num(1e-2),
                    &vector(&[0.0; 2]),
                    &xpt,
                    &mut d,
                    &mut ws,
                ));
                assert!(crvmin >= 0.0, "{crvmin:e}");
            }
        }
    }
}
