use bobyqa::float::F64;

fn num(v: f64) -> F64 {
    F64::from_bits(v.to_bits())
}

fn back(v: F64) -> f64 {
    f64::from_bits(v.to_bits())
}

#[test]
fn the_seam_forwards_to_std() {
    assert_eq!(back(num(4.0).sqrt()), 2.0);
    assert_eq!(back(num(-1.5).abs()), 1.5);
    assert_eq!(back(num(2.7).floor()), 2.0);
    assert_eq!(back(num(-0.5).floor()), -1.0);
}

/// A sequence of numbers of every kind: random bits, ordinary numbers and special ones.
fn samples() -> Vec<f64> {
    let mut v = vec![
        0.0,
        -0.0,
        1.0,
        -1.0,
        0.1,
        1.0 / 3.0,
        f64::MAX,
        f64::MIN,
        f64::MIN_POSITIVE,
        5e-324,
        -5e-324,
        2.2250738585072009e-308,
        f64::EPSILON,
        1.0 + f64::EPSILON,
        f64::INFINITY,
        f64::NEG_INFINITY,
        f64::NAN,
        1e30,
        9007199254740993.0,
        1.7976931348623155e308,
    ];
    let mut state: u64 = 0x9e37_79b9_7f4a_7c15;
    for k in 0..400u64 {
        state ^= state << 13;
        state ^= state >> 7;
        state ^= state << 17;
        v.push(f64::from_bits(state));
        let near = 0x3fe0_0000_0000_0000 | (state & 0x003f_ffff_ffff_ffff);
        v.push(f64::from_bits(near));
        v.push(f64::from_bits(state & (0x000f_ffff_ffff_ffff >> (k % 40))));
    }
    v
}

fn same(got: F64, want: f64) -> bool {
    (back(got).is_nan() && want.is_nan()) || back(got).to_bits() == want.to_bits()
}

#[test]
fn sums_and_differences_are_those_of_the_machine() {
    let v = samples();
    for a in &v {
        for b in v.iter().step_by(7) {
            assert!(same(num(*a) + num(*b), a + b), "{a:e} + {b:e}");
            assert!(same(num(*a) - num(*b), a - b), "{a:e} - {b:e}");
        }
    }
}

#[test]
fn products_are_those_of_the_machine() {
    let v = samples();
    for a in &v {
        for b in v.iter().step_by(7) {
            assert!(same(num(*a) * num(*b), a * b), "{a:e} * {b:e}");
        }
    }
}

#[test]
fn quotients_are_those_of_the_machine() {
    let v = samples();
    for a in &v {
        for b in v.iter().step_by(7) {
            assert!(same(num(*a) / num(*b), a / b), "{a:e} / {b:e}");
        }
    }
}

#[test]
fn square_roots_are_those_of_the_machine() {
    for a in samples() {
        assert!(same(num(a).sqrt(), a.sqrt()), "sqrt {a:e}");
    }
}

#[test]
fn comparisons_are_those_of_the_machine() {
    let v = samples();
    for a in &v {
        for b in v.iter().step_by(7) {
            let (x, y) = (num(*a), num(*b));
            assert_eq!(x.lt(y), a < b);
            assert_eq!(x.le(y), a <= b);
            assert_eq!(x.gt(y), a > b);
            assert_eq!(x.ge(y), a >= b);
            if a != b {
                assert!(same(x.max(y), a.max(*b)), "max {a:e} {b:e}");
                assert!(same(x.min(y), a.min(*b)), "min {a:e} {b:e}");
            }
        }
    }
}

#[test]
fn signs_and_kinds_are_those_of_the_machine() {
    for a in samples() {
        let x = num(a);
        assert_eq!(x.is_nan(), a.is_nan());
        assert_eq!(x.is_infinite(), a.is_infinite());
        assert_eq!(x.is_finite(), a.is_finite());
        assert_eq!(x.is_sign_negative(), a.is_sign_negative());
        assert_eq!(x.is_sign_positive(), a.is_sign_positive());
        assert_eq!(x.negated().to_bits(), (-a).to_bits());
        assert_eq!(x.abs().to_bits(), a.abs().to_bits());
        assert_eq!(x.copysign(num(-1.0)).to_bits(), a.copysign(-1.0).to_bits());
    }
}

#[test]
fn conversions_are_those_of_the_machine() {
    for a in samples() {
        assert!(same(num(a).floor(), a.floor()), "floor {a:e}");
        assert_eq!(num(a).round_to_usize(), a.round() as usize, "{a:e} rounded");
        let k = a.to_bits() as usize;
        assert!(same(F64::from_usize(k), k as f64), "{k}");
        assert!(same(F64::from_usize(k >> 40), (k >> 40) as f64));
    }
}
