//! The initial interpolation set, model and inverse interpolation matrix.
//!
//! The first point is the base point; points `1` to `n` lie on the coordinate directions, and so
//! do points `n + 1` to `2 n`, as far as there are that many; the others are sums of two of the
//! first ones.
use vstd::prelude::*;

use crate::consts::half;
use crate::consts::minus_one;
use crate::consts::one;
use crate::consts::two;
use crate::consts::zero;
use crate::consts::INFO_DFT;
use crate::consts::NAN_INF_MODEL;
use crate::float::arith::root_of;
use crate::float::order::max_of;
use crate::float::order::min_of;
use crate::float::F64;
use crate::linalg::matprod21_into;
use crate::linalg::matvec;
use crate::mat::shaped;
use crate::mat::with_entry;
use crate::mat::Mat;
use crate::powalg::pairs_of;
use crate::update::Inverse;
use crate::update::Quadratic;
use crate::vector::accumulate;
use crate::vector::any_nan;
use crate::vector::argmin;
use crate::vector::constant;
use crate::vector::fill;
use crate::vector::first_min;
use crate::vector::has_nan;
use crate::vector::largest_abs;
use crate::vector::max_abs;
use crate::vector::plus;

pub mod fit;
pub mod inverse;
pub mod layout;
pub mod mixed;

verus! {

/// One coordinate of the base point with its step bounds.
pub struct Start {
    pub x: F64,
    pub sl: F64,
    pub su: F64,
}

/// The coordinate `x0` with the bounds on moves from it: a bound is either reached, and then
/// the coordinate is exactly there, or at least `rhobeg` away.
pub open spec fn start_of(x0: F64, xl: F64, xu: F64, rhobeg: F64) -> Start {
    let a = if xl - x0 < zero() {
        Start { x: x0, sl: min_of(xl - x0, -rhobeg), su: xu - x0 }
    } else {
        Start { x: xl, sl: zero(), su: xu - xl }
    };
    if a.su > zero() {
        Start { su: max_of(a.su, rhobeg), ..a }
    } else {
        Start { x: xu, sl: xl - xu, su: zero() }
    }
}

/// The step to the first point on a coordinate direction.
pub open spec fn first_move(rhobeg: F64, su: F64) -> F64 {
    if su <= zero() {
        -rhobeg
    } else {
        rhobeg
    }
}

/// The step to the second point on a coordinate direction.
pub open spec fn second_move(rhobeg: F64, sl: F64, su: F64) -> F64 {
    if su <= zero() {
        max_of((-two()) * rhobeg, sl)
    } else if sl >= zero() {
        min_of(two() * rhobeg, su)
    } else {
        -rhobeg
    }
}

/// The points on the coordinate directions; the others are still zero.
pub open spec fn axis_points(npt: nat, rhobeg: F64, sl: Seq<F64>, su: Seq<F64>) -> Seq<Seq<F64>> {
    let n = sl.len();
    Seq::new(
        npt,
        |j: int|
            Seq::new(
                n,
                |r: int|
                    if j == r + 1 {
                        first_move(rhobeg, su[r])
                    } else if j == r + 1 + n {
                        second_move(rhobeg, sl[r], su[r])
                    } else {
                        zero()
                    },
            ),
    )
}

/// The number of coordinate directions with two points, plus one.
pub open spec fn exchange_limit(n: nat, npt: nat) -> int {
    if npt < 2 * n + 1 {
        npt - n
    } else {
        n as int + 1
    }
}

/// Points `j` and `j + n` lie on different sides, and the second is better.
pub open spec fn exchanged(n: nat, fval: Seq<F64>, xpt: Seq<Seq<F64>>, j: int) -> bool {
    xpt[j][j - 1] * xpt[j + n][j - 1] < zero() && fval[j + n] < fval[j]
}

/// The point that takes place `j` when the better of two points on different sides of the base
/// point comes first.
pub open spec fn source_of(n: nat, fval: Seq<F64>, xpt: Seq<Seq<F64>>, j: int) -> int {
    let m = exchange_limit(n, xpt.len());
    if 1 <= j < m && exchanged(n, fval, xpt, j) {
        j + n
    } else if 1 + n <= j < m + n && exchanged(n, fval, xpt, j - n) {
        j - n
    } else {
        j
    }
}

/// The values with the better of two points on different sides first.
pub open spec fn ordered_values(n: nat, fval: Seq<F64>, xpt: Seq<Seq<F64>>) -> Seq<F64> {
    Seq::new(fval.len(), |j: int| fval[source_of(n, fval, xpt, j)])
}

/// The points with the better of two on different sides first.
pub open spec fn ordered_points(n: nat, fval: Seq<F64>, xpt: Seq<Seq<F64>>) -> Seq<Seq<F64>> {
    Seq::new(xpt.len(), |j: int| xpt[source_of(n, fval, xpt, j)])
}

/// The points with those beyond the first `2 n + 1` set to sums of two.
pub open spec fn with_pairs(n: nat, xpt: Seq<Seq<F64>>) -> Seq<Seq<F64>> {
    let ij = pairs_of(n, xpt.len());
    Seq::new(
        xpt.len(),
        |c: int|
            if c >= 2 * n + 1 {
                plus(
                    xpt[ij[c - 2 * n - 1].0 as int + 1],
                    xpt[ij[c - 2 * n - 1].1 as int + 1],
                )
            } else {
                xpt[c]
            },
    )
}

/// The number of coordinate directions with two points.
pub open spec fn diag_count(n: nat, npt: nat) -> nat {
    if npt < 2 * n + 1 {
        (npt - n - 1) as nat
    } else {
        n
    }
}

/// The slope along direction `i` from one point or from two.
pub open spec fn start_slope(n: nat, npt: nat, fval: Seq<F64>, xpt: Seq<Seq<F64>>, i: int) -> F64 {
    let fbase = fval[0];
    let g = (fval[i + 1] - fbase) / xpt[i + 1][i];
    if i < diag_count(n, npt) {
        let xa = xpt[i + 1][i];
        let xb = xpt[n + 1 + i][i];
        (g * xb - ((fval[n + 1 + i] - fbase) / xb) * xa) / (xb - xa)
    } else {
        g
    }
}

/// The curvature along direction `k`.
pub open spec fn start_curvature(n: nat, fval: Seq<F64>, xpt: Seq<Seq<F64>>, k: int) -> F64 {
    let fbase = fval[0];
    let xa = xpt[k + 1][k];
    let xb = xpt[n + 1 + k][k];
    two() * ((fval[k + 1] - fbase) / xa - (fval[n + k + 1] - fbase) / xb) / (xa - xb)
}

/// The diagonal explicit Hessian.
pub open spec fn start_diagonal(
    n: nat,
    npt: nat,
    fval: Seq<F64>,
    xpt: Seq<Seq<F64>>,
) -> Seq<Seq<F64>> {
    Seq::new(
        n,
        |j: int|
            Seq::new(
                n,
                |i: int|
                    if i == j && j < diag_count(n, npt) {
                        start_curvature(n, fval, xpt, j)
                    } else {
                        zero()
                    },
            ),
    )
}

/// The mixed curvature of pair number `m`.
pub open spec fn start_mixed(
    n: nat,
    fval: Seq<F64>,
    xpt: Seq<Seq<F64>>,
    i: int,
    j: int,
    m: int,
) -> F64 {
    let c = 2 * n + 1 + m;
    (fval[0] - fval[i + 1] - fval[j + 1] + fval[c]) / (xpt[c][i] * xpt[c][j])
}

/// The explicit Hessian with the mixed curvatures of the first `m` pairs.
pub open spec fn start_hessian(n: nat, npt: nat, fval: Seq<F64>, xpt: Seq<Seq<F64>>, m: nat) -> Seq<
    Seq<F64>,
>
    decreases m,
{
    if m == 0 {
        start_diagonal(n, npt, fval, xpt)
    } else {
        let h = start_hessian(n, npt, fval, xpt, (m - 1) as nat);
        let i = pairs_of(n, npt)[m - 1].0 as int;
        let j = pairs_of(n, npt)[m - 1].1 as int;
        let v = start_mixed(n, fval, xpt, i, j, m - 1);
        with_entry(with_entry(h, i, j, v), j, i, v)
    }
}

/// The initial model.
pub open spec fn start_model(n: nat, fval: Seq<F64>, xpt: Seq<Seq<F64>>) -> Quadratic {
    let npt = xpt.len();
    let g = Seq::new(n, |i: int| start_slope(n, npt, fval, xpt, i));
    let hq = start_hessian(n, npt, fval, xpt, pairs_of(n, npt).len());
    let kopt = first_min(fval, npt);
    Quadratic {
        gopt: if kopt != 0 {
            plus(g, matvec(hq, xpt[kopt], n))
        } else {
            g
        },
        hq,
        pq: constant(npt, zero()),
    }
}

/// The weight of the base point in the slope along direction `k`.
pub open spec fn base_weight(n: nat, npt: nat, xpt: Seq<Seq<F64>>, k: int) -> F64 {
    let xa = xpt[k + 1][k];
    if k < diag_count(n, npt) {
        let xb = xpt[n + 1 + k][k];
        (-(xa + xb)) / (xa * xb)
    } else {
        minus_one() / xa
    }
}

/// Row `k` and column `j` of the initial `bmat`.
pub open spec fn start_bmat_entry(n: nat, npt: nat, xpt: Seq<Seq<F64>>, k: int, j: int) -> F64 {
    let two_points = k < diag_count(n, npt);
    let xa = xpt[k + 1][k];
    let last = (-half()) / xa;
    let rhobeg = max_abs(xpt[1]);
    if j == 0 {
        base_weight(n, npt, xpt, k)
    } else if j == k + 1 {
        if two_points {
            (-base_weight(n, npt, xpt, k)) - last
        } else {
            -base_weight(n, npt, xpt, k)
        }
    } else if two_points && j == k + n + 1 {
        last
    } else if !two_points && j == npt + k {
        (-half()) * (rhobeg * rhobeg)
    } else {
        zero()
    }
}

/// Row `r` and column `k` of the initial `zmat`.
pub open spec fn start_zmat_entry(n: nat, npt: nat, xpt: Seq<Seq<F64>>, r: int, k: int) -> F64 {
    let rhobeg = max_abs(xpt[1]);
    let rhosq = rhobeg * rhobeg;
    if k < diag_count(n, npt) {
        let z = root_of(two()) / (xpt[k + 1][k] * xpt[n + 1 + k][k]);
        if r == 0 {
            z
        } else if r == k + 1 {
            (-z) - root_of(half()) / rhosq
        } else if r == k + n + 1 {
            root_of(half()) / rhosq
        } else {
            zero()
        }
    } else {
        let p = pairs_of(n, npt)[k - n];
        if r == p.0 + 1 || r == p.1 + 1 {
            minus_one() / rhosq
        } else if r == 0 || r == k + n + 1 {
            one() / rhosq
        } else {
            zero()
        }
    }
}

/// The initial inverse interpolation matrix.
pub open spec fn start_inverse(n: nat, xpt: Seq<Seq<F64>>) -> Inverse {
    let npt = xpt.len();
    Inverse {
        bmat: Seq::new(
            npt + n,
            |j: int| Seq::new(n, |k: int| start_bmat_entry(n, npt, xpt, k, j)),
        ),
        zmat: Seq::new(
            (npt - n - 1) as nat,
            |k: int| Seq::new(npt, |r: int| start_zmat_entry(n, npt, xpt, r, k)),
        ),
    }
}

/// Some entry of the matrix is NaN.
pub open spec fn any_nan_mat(m: Seq<Seq<F64>>) -> bool {
    exists|j: int| 0 <= j < m.len() && any_nan(#[trigger] m[j])
}

/// The number of pairs, and their range.
pub proof fn lemma_pairs(n: nat, npt: nat, m: int)
    requires
        n > 0,
        n <= usize::MAX,
        0 <= m < pairs_of(n, npt).len(),
    ensures
        pairs_of(n, npt)[m].0 < n,
        pairs_of(n, npt)[m].1 < n,
{
    let k = n + m;
    assert(0 <= k % (n as int) < n) by {
        vstd::arithmetic::div_mod::lemma_mod_bound(k, n as int);
    }
    let v = k % (n as int) + k / (n as int);
    assert(0 <= v % (n as int) < n) by {
        vstd::arithmetic::div_mod::lemma_mod_bound(v, n as int);
    }
}

/// Revises the coordinates of the start and writes the bounds on moves from it.
pub fn start_bounds(
    rhobeg: F64,
    xl: &[F64],
    xu: &[F64],
    x0: &mut Vec<F64>,
    sl: &mut Vec<F64>,
    su: &mut Vec<F64>,
)
    requires
        xu@.len() == xl@.len(),
        old(x0)@.len() == xl@.len(),
        old(sl)@.len() == xl@.len(),
        old(su)@.len() == xl@.len(),
    ensures
        final(x0)@ == Seq::new(
            xl@.len(),
            |i: int| start_of(old(x0)@[i], xl@[i], xu@[i], rhobeg).x,
        ),
        final(sl)@ == Seq::new(
            xl@.len(),
            |i: int| start_of(old(x0)@[i], xl@[i], xu@[i], rhobeg).sl,
        ),
        final(su)@ == Seq::new(
            xl@.len(),
            |i: int| start_of(old(x0)@[i], xl@[i], xu@[i], rhobeg).su,
        ),
{
    let n: usize = xl.len();
    let ghost b: Seq<F64> = x0@;
    for i in 0..n
        invariant
            n == xl@.len(),
            n == xu@.len(),
            n == b.len(),
            x0@.len() == n,
            sl@.len() == n,
            su@.len() == n,
            forall|j: int|
                0 <= j < i ==> x0@[j] == start_of(b[j], xl@[j], xu@[j], rhobeg).x && sl@[j]
                    == start_of(b[j], xl@[j], xu@[j], rhobeg).sl && su@[j] == start_of(
                    b[j],
                    xl@[j],
                    xu@[j],
                    rhobeg,
                ).su,
            forall|j: int| i <= j < n ==> x0@[j] == b[j],
    {
        let mut x: F64 = x0[i];
        let mut lo: F64 = xl[i] - x;
        let mut hi: F64 = xu[i] - x;
        if lo.lt(zero()) {
            lo = lo.min(rhobeg.negated());
        } else {
            x = xl[i];
            lo = zero();
            hi = xu[i] - xl[i];
        }
        if hi.gt(zero()) {
            hi = hi.max(rhobeg);
        } else {
            x = xu[i];
            lo = xl[i] - xu[i];
            hi = zero();
        }
        x0[i] = x;
        sl[i] = lo;
        su[i] = hi;
    }
    assert(x0@ =~= Seq::new(n as nat, |i: int| start_of(b[i], xl@[i], xu@[i], rhobeg).x));
    assert(sl@ =~= Seq::new(n as nat, |i: int| start_of(b[i], xl@[i], xu@[i], rhobeg).sl));
    assert(su@ =~= Seq::new(n as nat, |i: int| start_of(b[i], xl@[i], xu@[i], rhobeg).su));
}

/// Writes the points on the coordinate directions into `xpt`.
pub fn start_points(rhobeg: F64, sl: &[F64], su: &[F64], xpt: &mut Mat)
    requires
        su@.len() == sl@.len(),
        old(xpt).is(sl@.len(), old(xpt)@.len()),
        2 * sl@.len() + 1 <= usize::MAX,
    ensures
        final(xpt)@ == axis_points(old(xpt)@.len(), rhobeg, sl@, su@),
        final(xpt).is(sl@.len(), old(xpt)@.len()),
{
    let n: usize = sl.len();
    let npt: usize = xpt.ncols();
    let ghost goal: Seq<Seq<F64>> = axis_points(npt as nat, rhobeg, sl@, su@);
    for j in 0..npt
        invariant
            n == sl@.len(),
            n == su@.len(),
            2 * n + 1 <= usize::MAX,
            xpt.is(n as nat, npt as nat),
            goal == axis_points(npt as nat, rhobeg, sl@, su@),
            forall|c: int| 0 <= c < j ==> #[trigger] xpt@[c] == goal[c],
    {
        let ghost now: Seq<Seq<F64>> = xpt@;
        xpt.fill_col(j, zero());
        assert(xpt@[j as int] == constant(n as nat, zero()));
        if j >= 1 && j <= n {
            xpt.set(
                j - 1,
                j,
                if su[j - 1].le(zero()) {
                    rhobeg.negated()
                } else {
                    rhobeg
                },
            );
        } else if j > n && j - n - 1 < n {
            let r: usize = j - n - 1;
            let v: F64 = if su[r].le(zero()) {
                (two().negated() * rhobeg).max(sl[r])
            } else if sl[r].ge(zero()) {
                (two() * rhobeg).min(su[r])
            } else {
                rhobeg.negated()
            };
            xpt.set(r, j, v);
        }
        assert(xpt@[j as int] =~= goal[j as int]);
    }
    assert(xpt@ =~= goal);
}

/// Puts the better of two points on different sides of the base point first.
pub fn order_points(fval: &mut Vec<F64>, xpt: &mut Mat)
    requires
        old(xpt).is(old(xpt).nrows as nat, old(fval)@.len()),
        old(xpt).nrows > 0,
        old(fval)@.len() >= old(xpt).nrows + 2,
        2 * old(xpt).nrows + 1 <= usize::MAX,
    ensures
        final(fval)@ == ordered_values(old(xpt).nrows as nat, old(fval)@, old(xpt)@),
        final(xpt)@ == ordered_points(old(xpt).nrows as nat, old(fval)@, old(xpt)@),
        final(xpt).is(old(xpt).nrows as nat, old(fval)@.len()),
{
    let n: usize = xpt.nrows();
    let npt: usize = fval.len();
    let ghost f0: Seq<F64> = fval@;
    let ghost x0: Seq<Seq<F64>> = xpt@;
    let limit: usize = if npt - n < n + 1 {
        npt - n
    } else {
        n + 1
    };
    for k in 1..limit
        invariant
            n == xpt.nrows,
            n > 0,
            2 * n + 1 <= usize::MAX,
            npt == fval@.len(),
            npt == f0.len(),
            npt >= n + 2,
            limit == exchange_limit(n as nat, npt as nat),
            xpt.is(n as nat, npt as nat),
            shaped(x0, n as nat, npt as nat),
            forall|j: int|
                0 <= j < npt ==> #[trigger] fval@[j] == (if j < k || n + 1 <= j < n + k {
                    f0[source_of(n as nat, f0, x0, j)]
                } else {
                    f0[j]
                }),
            forall|j: int|
                0 <= j < npt ==> #[trigger] xpt@[j] == (if j < k || n + 1 <= j < n + k {
                    x0[source_of(n as nat, f0, x0, j)]
                } else {
                    x0[j]
                }),
    {
        assert(xpt@[k as int].len() == n && xpt@[k + n].len() == n);
        assert(fval@[k as int] == f0[k as int] && fval@[k + n] == f0[k + n]);
        assert(xpt@[k as int] == x0[k as int] && xpt@[k + n] == x0[k + n]);
        if (xpt.get(k - 1, k) * xpt.get(k - 1, k + n)).lt(zero()) && fval[k + n].lt(fval[k]) {
            let f: F64 = fval[k];
            fval[k] = fval[k + n];
            fval[k + n] = f;
            swap_cols(xpt, k, k + n);
        }
    }
    assert(fval@ =~= ordered_values(n as nat, f0, x0)) by {
        assert forall|j: int| 0 <= j < npt implies fval@[j] == f0[source_of(
            n as nat,
            f0,
            x0,
            j,
        )] by {
            assert(fval@[j] == fval@[j]);
        }
    }
    assert forall|j: int| 0 <= j < npt implies #[trigger] xpt@[j] == x0[source_of(
        n as nat,
        f0,
        x0,
        j,
    )] by {}
    assert(xpt@ =~= ordered_points(n as nat, f0, x0));
}

/// Exchanges two columns.
pub fn swap_cols(m: &mut Mat, a: usize, b: usize)
    requires
        old(m).is(old(m).nrows as nat, old(m)@.len()),
        a < old(m)@.len(),
        b < old(m)@.len(),
    ensures
        final(m)@ == old(m)@.update(a as int, old(m)@[b as int]).update(
            b as int,
            old(m)@[a as int],
        ),
        final(m).is(old(m).nrows as nat, old(m)@.len()),
{
    let nr: usize = m.nrows();
    let ghost m0: Seq<Seq<F64>> = m@;
    assert(m0[a as int].len() == nr && m0[b as int].len() == nr);
    for r in 0..nr
        invariant
            nr == m.nrows,
            a < m0.len(),
            b < m0.len(),
            m0[a as int].len() == nr,
            m0[b as int].len() == nr,
            m.is(nr as nat, m0.len()),
            forall|c: int| 0 <= c < m0.len() && c != a && c != b ==> #[trigger] m@[c] == m0[c],
            forall|i: int|
                0 <= i < r ==> m@[a as int][i] == m0[b as int][i] && m@[b as int][i]
                    == m0[a as int][i],
            forall|i: int|
                r <= i < nr ==> m@[a as int][i] == m0[a as int][i] && m@[b as int][i]
                    == m0[b as int][i],
    {
        assert(m@[a as int].len() == nr && m@[b as int].len() == nr);
        let p: F64 = m.get(r, a);
        let q: F64 = m.get(r, b);
        m.set(r, a, q);
        assert(m@[b as int].len() == nr);
        m.set(r, b, p);
    }
    assert(m@[a as int].len() == nr && m@[b as int].len() == nr);
    assert(m@[a as int] =~= m0[b as int]);
    assert(m@[b as int] =~= m0[a as int]);
    assert(m@ =~= m0.update(a as int, m0[b as int]).update(b as int, m0[a as int]));
}

/// Sets the points beyond the first `2 n + 1` to sums of two.
pub fn pair_points(ij: &[(usize, usize)], xpt: &mut Mat)
    requires
        old(xpt).is(old(xpt).nrows as nat, old(xpt)@.len()),
        old(xpt).nrows > 0,
        old(xpt)@.len() >= old(xpt).nrows + 2,
        2 * old(xpt).nrows + 1 <= usize::MAX,
        ij@ == pairs_of(old(xpt).nrows as nat, old(xpt)@.len()),
    ensures
        final(xpt)@ == with_pairs(old(xpt).nrows as nat, old(xpt)@),
        final(xpt).is(old(xpt).nrows as nat, old(xpt)@.len()),
{
    let n: usize = xpt.nrows();
    let npt: usize = xpt.ncols();
    let ghost x0: Seq<Seq<F64>> = xpt@;
    let ghost goal: Seq<Seq<F64>> = with_pairs(n as nat, x0);
    for m in 0..ij.len()
        invariant
            n == xpt.nrows,
            n > 0,
            2 * n + 1 <= usize::MAX,
            npt == x0.len(),
            npt >= n + 2,
            ij@ == pairs_of(n as nat, npt as nat),
            shaped(x0, n as nat, npt as nat),
            xpt.is(n as nat, npt as nat),
            goal == with_pairs(n as nat, x0),
            forall|c: int|
                0 <= c < npt ==> #[trigger] xpt@[c] == (if c < 2 * n + 1 + m {
                    goal[c]
                } else {
                    x0[c]
                }),
    {
        proof {
            lemma_pairs(n as nat, npt as nat, m as int);
        }
        let c: usize = 2 * n + 1 + m;
        let a: usize = ij[m].0 + 1;
        let b: usize = ij[m].1 + 1;
        assert(a < 2 * n + 1 && b < 2 * n + 1 && a < npt && b < npt);
        assert(xpt@[a as int] == x0[a as int] && xpt@[b as int] == x0[b as int]);
        let ghost now: Seq<Seq<F64>> = xpt@;
        add_cols(xpt, a, b, c);
        assert(goal[c as int] == plus(x0[a as int], x0[b as int]));
    }
    assert(xpt@ =~= goal);
}

/// Sets column `c` to the sum of the columns `a` and `b`.
fn add_cols(m: &mut Mat, a: usize, b: usize, c: usize)
    requires
        old(m).is(old(m).nrows as nat, old(m)@.len()),
        a < old(m)@.len(),
        b < old(m)@.len(),
        c < old(m)@.len(),
        a != c,
        b != c,
    ensures
        final(m)@ == old(m)@.update(
            c as int,
            plus(old(m)@[a as int], old(m)@[b as int]),
        ),
        final(m).is(old(m).nrows as nat, old(m)@.len()),
{
    let nr: usize = m.nrows();
    let ghost m0: Seq<Seq<F64>> = m@;
    assert(m0[a as int].len() == nr && m0[b as int].len() == nr && m0[c as int].len() == nr);
    for r in 0..nr
        invariant
            nr == m.nrows,
            a < m0.len(),
            b < m0.len(),
            c < m0.len(),
            a != c,
            b != c,
            m0[a as int].len() == nr,
            m0[b as int].len() == nr,
            m.is(nr as nat, m0.len()),
            forall|k: int| 0 <= k < m0.len() && k != c ==> #[trigger] m@[k] == m0[k],
            forall|i: int| 0 <= i < r ==> m@[c as int][i] == m0[a as int][i] + m0[b as int][i],
    {
        assert(m@[a as int] == m0[a as int] && m@[b as int] == m0[b as int]);
        assert(m@[c as int].len() == nr);
        let v: F64 = m.get(r, a) + m.get(r, b);
        m.set(r, c, v);
    }
    assert(m@[c as int].len() == nr);
    assert(m@[c as int] =~= plus(m0[a as int], m0[b as int]));
    assert(m@ =~= m0.update(c as int, plus(m0[a as int], m0[b as int])));
}

/// Whether some entry of the matrix is NaN.
fn has_nan_mat(m: &Mat) -> (r: bool)
    ensures
        r == any_nan_mat(m@),
{
    let nc: usize = m.ncols();
    for j in 0..nc
        invariant
            nc == m@.len(),
            forall|c: int| 0 <= c < j ==> !any_nan(#[trigger] m@[c]),
    {
        if has_nan(m.col(j)) {
            assert(any_nan(m@[j as int]));
            return true;
        }
    }
    false
}

/// The number of coordinate directions with two points.
fn diagonal_count(n: usize, npt: usize) -> (r: usize)
    requires
        npt >= n + 2,
        2 * n + 1 <= usize::MAX,
    ensures
        r == diag_count(n as nat, npt as nat),
        r <= n,
        n + r < npt,
{
    if npt < 2 * n + 1 {
        npt - n - 1
    } else {
        n
    }
}

/// Sets the model from the points and values, and tells whether it holds NaN.
pub fn initq(
    ij: &[(usize, usize)],
    fval: &[F64],
    xpt: &Mat,
    gopt: &mut Vec<F64>,
    hq: &mut Mat,
    pq: &mut Vec<F64>,
    shift: &mut Vec<F64>,
) -> (info: i32)
    requires
        old(gopt)@.len() > 0,
        xpt.is(old(gopt)@.len(), fval@.len()),
        fval@.len() >= old(gopt)@.len() + 2,
        2 * old(gopt)@.len() + 1 <= usize::MAX,
        ij@ == pairs_of(old(gopt)@.len(), fval@.len()),
        old(hq).is(old(gopt)@.len(), old(gopt)@.len()),
        old(pq)@.len() == fval@.len(),
        old(shift)@.len() == old(gopt)@.len(),
    ensures
        (Quadratic { gopt: final(gopt)@, hq: final(hq)@, pq: final(pq)@ }) == start_model(
            old(gopt)@.len(),
            fval@,
            xpt@,
        ),
        info == (if any_nan(final(gopt)@) || any_nan_mat(final(hq)@) {
            NAN_INF_MODEL
        } else {
            INFO_DFT
        }),
        final(gopt)@.len() == old(gopt)@.len(),
        final(hq).is(old(gopt)@.len(), old(gopt)@.len()),
        final(pq)@.len() == fval@.len(),
        final(shift)@.len() == old(gopt)@.len(),
{
    let n: usize = gopt.len();
    let npt: usize = fval.len();
    let ndiag: usize = diagonal_count(n, npt);
    let fbase: F64 = fval[0];
    let ghost g: Seq<F64> = Seq::new(
        n as nat,
        |i: int| start_slope(n as nat, npt as nat, fval@, xpt@, i),
    );
    for i in 0..n
        invariant
            gopt@.len() == n,
            xpt.is(n as nat, npt as nat),
            fval@.len() == npt,
            npt >= n + 2,
            2 * n + 1 <= usize::MAX,
            ndiag == diag_count(n as nat, npt as nat),
            n + ndiag < npt,
            fbase == fval@[0],
            g == Seq::new(n as nat, |i: int| start_slope(n as nat, npt as nat, fval@, xpt@, i)),
            forall|j: int| 0 <= j < i ==> gopt@[j] == g[j],
    {
        assert(xpt@[i + 1].len() == n);
        let xa: F64 = xpt.get(i, i + 1);
        let mut v: F64 = (fval[i + 1] - fbase) / xa;
        if i < ndiag {
            assert(xpt@[n + 1 + i].len() == n);
            let xb: F64 = xpt.get(i, n + 1 + i);
            v = (v * xb - ((fval[n + 1 + i] - fbase) / xb) * xa) / (xb - xa);
        }
        gopt[i] = v;
    }
    assert(gopt@ =~= g);
    hq.fill(zero());
    assert(hq.is(n as nat, n as nat));
    let ghost dg: Seq<Seq<F64>> = start_diagonal(n as nat, npt as nat, fval@, xpt@);
    for k in 0..ndiag
        invariant
            ndiag == diag_count(n as nat, npt as nat),
            ndiag <= n,
            n + ndiag < npt,
            hq.is(n as nat, n as nat),
            xpt.is(n as nat, npt as nat),
            fval@.len() == npt,
            npt >= n + 2,
            2 * n + 1 <= usize::MAX,
            fbase == fval@[0],
            dg == start_diagonal(n as nat, npt as nat, fval@, xpt@),
            forall|c: int, r: int|
                0 <= c < n && 0 <= r < n ==> #[trigger] hq@[c][r] == (if c < k {
                    dg[c][r]
                } else {
                    zero()
                }),
    {
        assert(xpt@[k + 1].len() == n && xpt@[n + 1 + k].len() == n && hq@[k as int].len() == n);
        let xa: F64 = xpt.get(k, k + 1);
        let xb: F64 = xpt.get(k, n + 1 + k);
        let v: F64 = two() * ((fval[k + 1] - fbase) / xa - (fval[n + k + 1] - fbase) / xb) / (xa
            - xb);
        hq.set(k, k, v);
    }
    assert forall|c: int| 0 <= c < n implies #[trigger] hq@[c] == dg[c] by {
        assert(hq@[c].len() == n);
        assert forall|r: int| 0 <= r < n implies hq@[c][r] == dg[c][r] by {
            assert(hq@[c][r] == hq@[c][r]);
        }
        assert(hq@[c] =~= dg[c]);
    }
    assert(hq@ =~= dg);
    for m in 0..ij.len()
        invariant
            hq.is(n as nat, n as nat),
            xpt.is(n as nat, npt as nat),
            fval@.len() == npt,
            npt >= n + 2,
            n > 0,
            2 * n + 1 <= usize::MAX,
            fbase == fval@[0],
            ij@ == pairs_of(n as nat, npt as nat),
            hq@ == start_hessian(n as nat, npt as nat, fval@, xpt@, m as nat),
    {
        proof {
            lemma_pairs(n as nat, npt as nat, m as int);
        }
        let i: usize = ij[m].0;
        let j: usize = ij[m].1;
        let c: usize = 2 * n + 1 + m;
        assert(xpt@[c as int].len() == n && hq@[j as int].len() == n);
        let v: F64 = (fbase - fval[i + 1] - fval[j + 1] + fval[c]) / (xpt.get(i, c) * xpt.get(j, c));
        hq.set(i, j, v);
        assert(hq@[i as int].len() == n);
        hq.set(j, i, v);
    }
    let kopt: usize = argmin(fval);
    if kopt != 0 {
        assert(xpt@[kopt as int].len() == n);
        matprod21_into(hq, xpt.col(kopt), shift);
        accumulate(gopt, shift);
    }
    fill(pq, zero());
    if has_nan(gopt) || has_nan_mat(hq) {
        NAN_INF_MODEL
    } else {
        INFO_DFT
    }
}

/// Row `k` and column `j` of the initial `bmat`.
fn bmat_entry(
    n: usize,
    npt: usize,
    ndiag: usize,
    rhosq: F64,
    xpt: &Mat,
    k: usize,
    j: usize,
) -> (r: F64)
    requires
        xpt.is(n as nat, npt as nat),
        npt >= n + 2,
        npt + n <= usize::MAX,
        2 * n + 1 <= usize::MAX,
        ndiag == diag_count(n as nat, npt as nat),
        n + ndiag < npt,
        rhosq == max_abs(xpt@[1]) * max_abs(xpt@[1]),
        k < n,
        j < npt + n,
    ensures
        r == start_bmat_entry(n as nat, npt as nat, xpt@, k as int, j as int),
{
    assert(xpt@[k + 1].len() == n);
    let xa: F64 = xpt.get(k, k + 1);
    if k < ndiag {
        assert(xpt@[n + 1 + k].len() == n);
        let xb: F64 = xpt.get(k, n + 1 + k);
        let base: F64 = (xa + xb).negated() / (xa * xb);
        let last: F64 = half().negated() / xa;
        if j == 0 {
            base
        } else if j == k + 1 {
            base.negated() - last
        } else if j == k + n + 1 {
            last
        } else {
            zero()
        }
    } else {
        let base: F64 = minus_one() / xa;
        if j == 0 {
            base
        } else if j == k + 1 {
            base.negated()
        } else if j == npt + k {
            half().negated() * rhosq
        } else {
            zero()
        }
    }
}

/// Row `r` and column `k` of the initial `zmat`.
fn zmat_entry(
    n: usize,
    npt: usize,
    ndiag: usize,
    rhosq: F64,
    ij: &[(usize, usize)],
    xpt: &Mat,
    r: usize,
    k: usize,
) -> (v: F64)
    requires
        n > 0,
        xpt.is(n as nat, npt as nat),
        npt >= n + 2,
        npt + n <= usize::MAX,
        2 * n + 1 <= usize::MAX,
        ndiag == diag_count(n as nat, npt as nat),
        n + ndiag < npt,
        rhosq == max_abs(xpt@[1]) * max_abs(xpt@[1]),
        ij@ == pairs_of(n as nat, npt as nat),
        k < npt - n - 1,
        r < npt,
    ensures
        v == start_zmat_entry(n as nat, npt as nat, xpt@, r as int, k as int),
{
    if k < ndiag {
        assert(xpt@[k + 1].len() == n && xpt@[n + 1 + k].len() == n);
        let z: F64 = two().sqrt() / (xpt.get(k, k + 1) * xpt.get(k, n + 1 + k));
        if r == 0 {
            z
        } else if r == k + 1 {
            z.negated() - half().sqrt() / rhosq
        } else if r == k + n + 1 {
            half().sqrt() / rhosq
        } else {
            zero()
        }
    } else {
        proof {
            lemma_pairs(n as nat, npt as nat, k - n);
        }
        let (i, j): (usize, usize) = ij[k - n];
        if r == i + 1 || r == j + 1 {
            minus_one() / rhosq
        } else if r == 0 || r == k + n + 1 {
            one() / rhosq
        } else {
            zero()
        }
    }
}

/// Sets the inverse interpolation matrix from the points, and tells whether it holds NaN.
pub fn inith(ij: &[(usize, usize)], xpt: &Mat, bmat: &mut Mat, zmat: &mut Mat) -> (info: i32)
    requires
        xpt.nrows > 0,
        xpt.is(xpt.nrows as nat, xpt@.len()),
        xpt@.len() >= xpt.nrows + 2,
        xpt@.len() + xpt.nrows <= usize::MAX,
        2 * xpt.nrows + 1 <= usize::MAX,
        ij@ == pairs_of(xpt.nrows as nat, xpt@.len()),
        old(bmat).is(xpt.nrows as nat, (xpt@.len() + xpt.nrows) as nat),
        old(zmat).is(xpt@.len(), (xpt@.len() - xpt.nrows - 1) as nat),
    ensures
        (Inverse { bmat: final(bmat)@, zmat: final(zmat)@ }) == start_inverse(
            xpt.nrows as nat,
            xpt@,
        ),
        info == (if any_nan_mat(final(bmat)@) || any_nan_mat(final(zmat)@) {
            NAN_INF_MODEL
        } else {
            INFO_DFT
        }),
        final(bmat).is(xpt.nrows as nat, (xpt@.len() + xpt.nrows) as nat),
        final(zmat).is(xpt@.len(), (xpt@.len() - xpt.nrows - 1) as nat),
{
    let n: usize = xpt.nrows();
    let npt: usize = xpt.ncols();
    let ndiag: usize = diagonal_count(n, npt);
    let rhobeg: F64 = largest_abs(xpt.col(1));
    let rhosq: F64 = rhobeg * rhobeg;
    let ghost h: Inverse = start_inverse(n as nat, xpt@);
    for j in 0..(npt + n)
        invariant
            xpt.is(n as nat, npt as nat),
            npt >= n + 2,
            npt + n <= usize::MAX,
            2 * n + 1 <= usize::MAX,
            ndiag == diag_count(n as nat, npt as nat),
            n + ndiag < npt,
            rhosq == max_abs(xpt@[1]) * max_abs(xpt@[1]),
            h == start_inverse(n as nat, xpt@),
            bmat.is(n as nat, (npt + n) as nat),
            forall|c: int| 0 <= c < j ==> #[trigger] bmat@[c] == h.bmat[c],
    {
        for k in 0..n
            invariant
                j < npt + n,
                xpt.is(n as nat, npt as nat),
                npt >= n + 2,
                npt + n <= usize::MAX,
                2 * n + 1 <= usize::MAX,
                ndiag == diag_count(n as nat, npt as nat),
                n + ndiag < npt,
                rhosq == max_abs(xpt@[1]) * max_abs(xpt@[1]),
                h == start_inverse(n as nat, xpt@),
                bmat.is(n as nat, (npt + n) as nat),
                forall|c: int| 0 <= c < j ==> #[trigger] bmat@[c] == h.bmat[c],
                forall|r: int| 0 <= r < k ==> bmat@[j as int][r] == h.bmat[j as int][r],
        {
            assert(bmat@[j as int].len() == n);
            let v: F64 = bmat_entry(n, npt, ndiag, rhosq, xpt, k, j);
            bmat.set(k, j, v);
        }
        assert(bmat@[j as int].len() == n);
        assert(bmat@[j as int] =~= h.bmat[j as int]);
    }
    assert(bmat@ =~= h.bmat);
    for k in 0..(npt - n - 1)
        invariant
            n > 0,
            xpt.is(n as nat, npt as nat),
            npt >= n + 2,
            npt + n <= usize::MAX,
            2 * n + 1 <= usize::MAX,
            ndiag == diag_count(n as nat, npt as nat),
            n + ndiag < npt,
            rhosq == max_abs(xpt@[1]) * max_abs(xpt@[1]),
            ij@ == pairs_of(n as nat, npt as nat),
            h == start_inverse(n as nat, xpt@),
            zmat.is(npt as nat, (npt - n - 1) as nat),
            forall|c: int| 0 <= c < k ==> #[trigger] zmat@[c] == h.zmat[c],
    {
        for r in 0..npt
            invariant
                n > 0,
                k < npt - n - 1,
                xpt.is(n as nat, npt as nat),
                npt >= n + 2,
                npt + n <= usize::MAX,
                2 * n + 1 <= usize::MAX,
                ndiag == diag_count(n as nat, npt as nat),
                n + ndiag < npt,
                rhosq == max_abs(xpt@[1]) * max_abs(xpt@[1]),
                ij@ == pairs_of(n as nat, npt as nat),
                h == start_inverse(n as nat, xpt@),
                zmat.is(npt as nat, (npt - n - 1) as nat),
                forall|c: int| 0 <= c < k ==> #[trigger] zmat@[c] == h.zmat[c],
                forall|i: int| 0 <= i < r ==> zmat@[k as int][i] == h.zmat[k as int][i],
        {
            assert(zmat@[k as int].len() == npt);
            let v: F64 = zmat_entry(n, npt, ndiag, rhosq, ij, xpt, r, k);
            zmat.set(r, k, v);
        }
        assert(zmat@[k as int].len() == npt);
        assert(zmat@[k as int] =~= h.zmat[k as int]);
    }
    assert(zmat@ =~= h.zmat);
    if has_nan_mat(bmat) || has_nan_mat(zmat) {
        NAN_INF_MODEL
    } else {
        INFO_DFT
    }
}

} // verus!
