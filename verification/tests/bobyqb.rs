use bobyqa::bobyqb::course::Settings;
use bobyqa::bobyqb::iterate::{bobyqb, SolverWs};
use bobyqa::bobyqb::{errbd, redrat, redrho, shiftbase, ErrbdWs, ShiftbaseWs};
use bobyqa::consts::SMALL_TR_RADIUS;
use bobyqa::float::F64;
use bobyqa::mat::Mat;

fn num(v: f64) -> F64 {
    F64::from_bits(v.to_bits())
}

fn back(v: F64) -> f64 {
    f64::from_bits(v.to_bits())
}

fn vector(v: &[f64]) -> Vec<F64> {
    v.iter().map(|x| num(*x)).collect()
}

fn floats(v: &[F64]) -> Vec<f64> {
    v.iter().map(|x| back(*x)).collect()
}

fn matrix(nrows: usize, ncols: usize, data: &[f64]) -> Mat {
    Mat::from_col_major(nrows, ncols, vector(data))
}

#[test]
fn bobyqb_converges_on_the_sphere_to_small_tr_radius() {
    let mut sphere = |x: &[F64]| num(x.iter().map(|v| back(*v) * back(*v)).sum::<f64>());
    let mut ws = SolverWs::new(2, 5);
    ws.xl = vector(&[-5.0, -5.0]);
    ws.xu = vector(&[5.0, 5.0]);
    ws.progress.x = vector(&[1.0, 2.0]);
    let set = Settings {
        maxfun: 500,
        eta1: num(0.1),
        eta2: num(0.7),
        ftarget: num(f64::NEG_INFINITY),
        gamma1: num(0.5),
        gamma2: num(2.0),
        rhobeg: num(0.5),
        rhoend: num(1e-6),
    };
    let (f, nf, info) = bobyqb(&mut sphere, &set, &mut ws);
    assert_eq!(info, SMALL_TR_RADIUS);
    assert_eq!(nf, 22);
    let f = back(f);
    assert!(f < 1e-20, "f = {f:e}");
    assert!(ws.progress.x.iter().all(|v| back(*v).abs() < 1e-10));
}

struct Bound<'a> {
    crvmin: f64,
    d: &'a [f64],
    gopt: &'a [f64],
    hq: &'a Mat,
    moderr_rec: &'a [f64],
    pq: &'a [f64],
    rho: f64,
    sl: &'a [f64],
    su: &'a [f64],
    xopt: &'a [f64],
    xpt: &'a Mat,
}

fn bound(b: Bound) -> f64 {
    let mut ws = ErrbdWs::new(b.d.len(), b.pq.len());
    back(errbd(
        num(b.crvmin),
        &vector(b.d),
        &vector(b.gopt),
        b.hq,
        &vector(b.moderr_rec),
        &vector(b.pq),
        num(b.rho),
        &vector(b.sl),
        &vector(b.su),
        &vector(b.xopt),
        b.xpt,
        &mut ws,
    ))
}

#[test]
fn errbd_takes_the_interior_bound_and_crvmin_arms() {
    let (n, npt) = (2, 5);
    let xpt = Mat::zeros(n, npt);
    let hq = Mat::zeros(n, n);
    let interior = |crvmin: f64, su: &[f64]| {
        bound(Bound {
            crvmin,
            d: &[0.1, 0.1],
            gopt: &[1.0, -2.0],
            hq: &hq,
            moderr_rec: &[0.25, -0.5],
            pq: &[0.0; 5],
            rho: 0.5,
            sl: &[-1.0; 2],
            su,
            xopt: &[0.0; 2],
            xpt: &xpt,
        })
    };
    assert_eq!(interior(0.0, &[1.0; 2]), 0.5);
    assert_eq!(interior(2.0, &[1.0; 2]), 0.0625);
    assert_eq!(interior(0.0, &[0.1, 1.0]), -0.5);
}

#[test]
fn errbd_pins_the_bsecond_and_active_bound_paths() {
    let xpt1 = matrix(1, 1, &[3.0]);
    let hq1 = matrix(1, 1, &[1.0]);
    let e = bound(Bound {
        crvmin: 0.0,
        d: &[0.0],
        gopt: &[0.0],
        hq: &hq1,
        moderr_rec: &[0.0, 0.0],
        pq: &[2.0],
        rho: 2.0,
        sl: &[-10.0],
        su: &[10.0],
        xopt: &[0.0],
        xpt: &xpt1,
    });
    assert_eq!(e, 38.0);
    let hq2 = matrix(1, 1, &[2.0]);
    let xpt2 = Mat::zeros(1, 1);
    let e = bound(Bound {
        crvmin: 0.0,
        d: &[0.5],
        gopt: &[1.0],
        hq: &hq2,
        moderr_rec: &[0.0, 0.0],
        pq: &[0.0],
        rho: 0.5,
        sl: &[-10.0],
        su: &[0.25],
        xopt: &[0.0],
        xpt: &xpt2,
    });
    assert_eq!(e, -0.75);
    let e = bound(Bound {
        crvmin: 0.0,
        d: &[-0.5],
        gopt: &[3.0],
        hq: &hq2,
        moderr_rec: &[0.0, 0.0],
        pq: &[0.0],
        rho: 0.5,
        sl: &[-0.25],
        su: &[10.0],
        xopt: &[0.0],
        xpt: &xpt2,
    });
    assert_eq!(e, 1.25);
}

fn ratio(ared: f64, pred: f64) -> f64 {
    back(redrat(num(ared), num(pred), num(0.1)))
}

#[test]
fn redrat_handles_nan_inf_and_the_plain_quotient() {
    assert_eq!(ratio(f64::NAN, 1.0), -f64::MAX);
    assert_eq!(ratio(1.0, f64::NAN), 0.05);
    assert_eq!(ratio(1.0, -2.0), 0.05);
    assert_eq!(ratio(-1.0, f64::NAN), -f64::MAX);
    assert_eq!(ratio(f64::INFINITY, f64::INFINITY), 1.0);
    assert_eq!(ratio(f64::NEG_INFINITY, f64::INFINITY), -f64::MAX);
    assert_eq!(ratio(1.0, 2.0), 0.5);
    assert_eq!(ratio(0.0, -1.0), -f64::MAX);
    assert_eq!(ratio(0.0, f64::NAN), -f64::MAX);
    assert_eq!(ratio(1.0, f64::INFINITY), 0.0);
    assert_eq!(ratio(f64::INFINITY, 2.0), f64::INFINITY);
    assert_eq!(ratio(f64::NEG_INFINITY, 2.0), f64::NEG_INFINITY);
}

fn reduced(rho: f64, rhoend: f64) -> f64 {
    back(redrho(num(rho), num(rhoend)))
}

#[test]
fn redrho_takes_the_tenth_floor_and_sqrt_branches() {
    assert_eq!(reduced(1.0, 1e-6), 0.1);
    assert_eq!(reduced(1e-5, 1e-6), 1e-6);
    assert_eq!(reduced(2e-5, 1e-6), 4.472_135_954_999_579e-6);
    assert_eq!(reduced(250.0, 1.0), 15.811_388_300_841_896);
}

fn full_hessian(hq: &Mat, pq: &[F64], xpt: &Mat) -> Vec<Vec<f64>> {
    let n = xpt.nrows();
    let mut h = vec![vec![0.0; n]; n];
    for i in 0..n {
        for j in 0..n {
            h[i][j] = back(hq.get(i, j));
            for k in 0..xpt.ncols() {
                h[i][j] += back(pq[k]) * back(xpt.get(i, k)) * back(xpt.get(j, k));
            }
        }
    }
    h
}

#[test]
fn shiftbase_zeroes_the_kopt_column_moves_xbase_and_preserves_the_model_hessian() {
    let (n, npt, kopt) = (2, 6, 3);
    let xpt = matrix(
        n,
        npt,
        &[
            0.0, 0.0, 0.5, 0.1, -0.2, 0.5, 0.3, -0.4, -0.5, 0.0, 0.2, 0.25,
        ],
    );
    let pq = vector(&[0.4, -0.3, 0.2, 0.1, -0.5, 0.6]);
    let mut hq = matrix(n, n, &[1.0, 0.5, 0.5, 2.0]);
    let eighteen: Vec<f64> = (1..=18u8).map(f64::from).collect();
    let sixteen: Vec<f64> = (1..=16u8).map(f64::from).collect();
    let zmat = matrix(npt, npt - n - 1, &eighteen);
    let mut bmat = matrix(n, npt + n, &sixteen);
    let v = bmat.get(0, npt + 1);
    bmat.set(1, npt, v);
    let mut xbase = vector(&[10.0, 20.0]);
    let xopt = floats(xpt.col(kopt));
    let h_before = full_hessian(&hq, &pq, &xpt);

    let mut xpt2 = xpt.clone();
    let mut ws = ShiftbaseWs::new(n, npt);
    shiftbase(
        kopt,
        &mut xbase,
        &mut xpt2,
        &zmat,
        &mut bmat,
        &pq,
        &mut hq,
        &mut ws,
    );

    assert!(xpt2.col(kopt).iter().all(|v| back(*v) == 0.0));
    assert_eq!(floats(&xbase), vec![10.0 + xopt[0], 20.0 + xopt[1]]);
    for j in (0..npt).filter(|&j| j != kopt) {
        for (i, &x) in xopt.iter().enumerate() {
            assert_eq!(back(xpt2.get(i, j)), back(xpt.get(i, j)) - x);
        }
    }
    let h_after = full_hessian(&hq, &pq, &xpt2);
    for i in 0..n {
        for j in 0..n {
            assert!(
                (h_after[i][j] - h_before[i][j]).abs() <= 1e-12,
                "model Hessian not preserved at [{i},{j}]"
            );
        }
    }
    for i in 0..n {
        for j in 0..n {
            assert_eq!(bmat.get(i, npt + j), bmat.get(j, npt + i));
            assert_eq!(hq.get(i, j), hq.get(j, i));
        }
    }
}

#[test]
fn redrho_falls_to_the_final_resolution() {
    let tiny = f64::from_bits(1);
    for (begin, end) in [(1.0, 1e-6), (1e300, 1e-300), (0.5, 0.5), (17.0, 1.0), (1e-310, tiny)] {
        let mut rho = begin;
        let mut count = 0;
        while rho > end {
            let next = back(redrho(num(rho), num(end)));
            assert!(end <= next && next < rho, "{rho:e} to {next:e}");
            rho = next;
            count += 1;
            assert!(count < 700);
        }
        assert_eq!(back(redrho(num(rho), num(end))), end);
    }
}

#[test]
fn a_second_shift_changes_no_number() {
    let (n, npt, kopt) = (2, 6, 3);
    let points = [0.0, 0.0, 0.5, 0.1, -0.2, 0.5, 0.3, -0.4, -0.5, 0.0, 0.2, 0.25];
    let mut xpt = matrix(n, npt, &points);
    let pq = vector(&[0.4, -0.3, 0.2, 0.1, -0.5, 0.6]);
    let mut hq = matrix(n, n, &[1.0, 0.5, 0.5, 2.0]);
    let eighteen: Vec<f64> = (1..=18u8).map(f64::from).collect();
    let sixteen: Vec<f64> = (1..=16u8).map(f64::from).collect();
    let zmat = matrix(npt, npt - n - 1, &eighteen);
    let mut bmat = matrix(n, npt + n, &sixteen);
    let mut xbase = vector(&[10.0, 20.0]);
    let mut ws = ShiftbaseWs::new(n, npt);
    let mut seen = Vec::new();
    for _ in 0..2 {
        shiftbase(
            kopt,
            &mut xbase,
            &mut xpt,
            &zmat,
            &mut bmat,
            &pq,
            &mut hq,
            &mut ws,
        );
        let mut all = floats(&xbase);
        (0..npt).for_each(|k| all.extend(floats(xpt.col(k))));
        (0..npt + n).for_each(|k| all.extend(floats(bmat.col(k))));
        (0..n).for_each(|k| all.extend(floats(hq.col(k))));
        seen.push(all);
    }
    assert_eq!(seen[0], seen[1]);
}
