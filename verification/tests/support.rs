use bobyqa::float::F64;

const REL_TOL: f64 = 1e-14;

/// Compares computed numbers with wanted ones, up to a relative tolerance.
#[derive(Debug, Default)]
struct DiffStats {
    checked: usize,
    bit_exact: usize,
    max_rel: f64,
}

impl DiffStats {
    fn f64(&mut self, what: &str, got: f64, want: f64) {
        self.checked += 1;
        if got.to_bits() == want.to_bits() {
            self.bit_exact += 1;
            return;
        }
        let scale = got.abs().max(want.abs());
        let diff = (got - want).abs();
        assert!(
            diff <= REL_TOL * scale,
            "{what}: got {got:e}, want {want:e}, rel {:e} > {REL_TOL:e}",
            diff / scale
        );
        if scale > 0.0 {
            self.max_rel = self.max_rel.max(diff / scale);
        }
    }
}

#[test]
fn diff_stats_track_bit_exactness_and_tolerance() {
    let mut s = DiffStats::default();
    s.f64("a", 1.0, 1.0);
    s.f64("b", 1.0, 1.0 + 1e-15);
    assert_eq!((s.checked, s.bit_exact), (2, 1));
    assert_eq!(s.max_rel, 1.110_223_024_625_155_4e-15);
}

#[test]
#[should_panic(expected = "rel")]
fn diff_stats_fail_beyond_the_tolerance() {
    DiffStats::default().f64("x", 1.0, 1.001);
}

#[test]
fn numbers_keep_their_bits() {
    let mut s = DiffStats::default();
    for v in [0.0, -0.0, 1.5, f64::MAX, 5e-324, f64::NEG_INFINITY] {
        s.f64("round trip", f64::from_bits(F64::from_bits(v.to_bits()).to_bits()), v);
    }
    assert_eq!(s.bit_exact, s.checked);
}
