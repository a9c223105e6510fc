//! The linear algebra of the method.
//!
//! Sums run over ascending indices from zero; products of a matrix with a vector take the inner
//! products with the rows of the matrix.
use vstd::prelude::*;

use crate::consts::epsilon;
use crate::consts::norm_guard;
use crate::consts::one;
use crate::consts::realmax;
use crate::consts::realmin;
use crate::consts::scalmax;
use crate::consts::scalmin;
use crate::consts::symtol;
use crate::consts::two;
use crate::consts::zero;
use crate::float::arith::lemma_root_sign;
use crate::float::arith::lemma_sign_stays;
use crate::float::arith::magnitude_of;
use crate::float::arith::root_of;
use crate::float::arith::with_sign_of;
use crate::float::order::max_of;
use crate::float::order::min_of;
use crate::float::F64;
use crate::mat::row;
use crate::mat::shaped;
use crate::mat::Mat;
use crate::vector::abs_sum;
use crate::vector::all_finite;
use crate::vector::dot;
use crate::vector::dot_from;
use crate::vector::inprod_from;
use crate::vector::is_all_finite;
use crate::vector::largest_abs;
use crate::vector::largest_abs_from;
use crate::vector::lemma_abs_sum_sign;
use crate::vector::lemma_dot_sign;
use crate::vector::lemma_max_sign;
use crate::vector::magnitudes;
use crate::vector::max_abs;
use crate::vector::max_from;
use crate::vector::scaled;
use crate::vector::sum_abs;
use crate::vector::zeros;

pub mod accuracy;
pub mod turning;

verus! {

/// The row vector `x` times the matrix `m`.
pub open spec fn vecmat(x: Seq<F64>, m: Seq<Seq<F64>>) -> Seq<F64> {
    Seq::new(m.len(), |j: int| dot(x, m[j]))
}

/// The first `nr` entries of the leading columns of `m` times the column vector `y`.
pub open spec fn matvec(m: Seq<Seq<F64>>, y: Seq<F64>, nr: nat) -> Seq<F64> {
    Seq::new(nr, |i: int| dot(row(m, i), y))
}

/// The matrix `x` of `nr` rows times the matrix `y`.
pub open spec fn matmat(x: Seq<Seq<F64>>, y: Seq<Seq<F64>>, nr: nat) -> Seq<Seq<F64>> {
    Seq::new(y.len(), |j: int| matvec(x, y[j], nr))
}

/// The column vector `x` times the row vector `y`.
pub open spec fn outer(x: Seq<F64>, y: Seq<F64>) -> Seq<Seq<F64>> {
    Seq::new(y.len(), |j: int| scaled(x, y[j]))
}

/// The matrix of `nr` rows with rows and columns exchanged.
pub open spec fn transposed(m: Seq<Seq<F64>>, nr: nat) -> Seq<Seq<F64>> {
    Seq::new(nr, |i: int| row(m, i))
}

/// The Euclidean norm, guarded against overflow and underflow of the squares.
pub open spec fn norm_of(x: Seq<F64>) -> F64 {
    if x.len() == 0 {
        zero()
    } else if !all_finite(x) {
        abs_sum(x)
    } else if max_abs(x) <= zero() {
        zero()
    } else {
        let y = root_of(dot(x, x));
        if (y.inf() && !y.sign()) || y <= zero() {
            let c = min_of(scalmax(), max_of(scalmin(), max_abs(x)));
            let s = Seq::new(x.len(), |i: int| x[i] / c);
            c * root_of(dot(s, s))
        } else {
            y
        }
    }
}

/// The largest of `acc` and the absolute values in the first `k` columns.
pub open spec fn max_abs_cols(acc: F64, m: Seq<Seq<F64>>, k: nat) -> F64
    decreases k,
{
    if k == 0 {
        acc
    } else {
        max_from(max_abs_cols(acc, m, (k - 1) as nat), magnitudes(m[k - 1]), m[k - 1].len())
    }
}

/// The largest absolute value in the matrix, or zero.
pub open spec fn max_abs_mat(m: Seq<Seq<F64>>) -> F64 {
    max_abs_cols(zero(), m, m.len())
}

/// Every entry of the matrix is finite.
pub open spec fn all_finite_mat(m: Seq<Seq<F64>>) -> bool {
    forall|j: int| 0 <= j < m.len() ==> all_finite(#[trigger] m[j])
}

/// The square matrix with the lower triangle copied to the upper one.
pub open spec fn mirrored(m: Seq<Seq<F64>>) -> Seq<Seq<F64>> {
    Seq::new(
        m.len(),
        |j: int|
            Seq::new(
                m.len(),
                |i: int|
                    if i < j {
                        m[i][j]
                    } else {
                        m[j][i]
                    },
            ),
    )
}

/// Column `j` with `alpha x x'` added from row `j` on.
pub open spec fn raised1(col: Seq<F64>, j: int, alpha: F64, x: Seq<F64>) -> Seq<F64> {
    Seq::new(
        col.len(),
        |i: int|
            if i < j {
                col[i]
            } else {
                col[i] + alpha * x[i] * x[j]
            },
    )
}

/// The symmetric matrix `a` plus `alpha x x'`.
pub open spec fn rank_one(a: Seq<Seq<F64>>, alpha: F64, x: Seq<F64>) -> Seq<Seq<F64>> {
    mirrored(Seq::new(a.len(), |j: int| raised1(a[j], j, alpha, x)))
}

/// Column `j` with `alpha (x y' + y x')` added from row `j` on.
pub open spec fn raised2(
    col: Seq<F64>,
    j: int,
    alpha: F64,
    x: Seq<F64>,
    y: Seq<F64>,
) -> Seq<F64> {
    Seq::new(
        col.len(),
        |i: int|
            if i < j {
                col[i]
            } else {
                (col[i] + alpha * x[i] * y[j]) + alpha * y[i] * x[j]
            },
    )
}

/// The symmetric matrix `a` plus `alpha (x y' + y x')`.
pub open spec fn rank_two(
    a: Seq<Seq<F64>>,
    alpha: F64,
    x: Seq<F64>,
    y: Seq<F64>,
) -> Seq<Seq<F64>> {
    mirrored(Seq::new(a.len(), |j: int| raised2(a[j], j, alpha, x, y)))
}

/// The square matrix differs from its transpose by no more than the tolerance, and has NaN
/// where its transpose has.
pub open spec fn symmetric_within_tolerance(a: Seq<Seq<F64>>) -> bool {
    let tol = symtol() * max_of(max_abs_mat(a), one());
    forall|i: int, j: int|
        0 <= i < a.len() && 0 <= j < a.len() ==> {
            &&& !(magnitude_of(#[trigger] a[j][i] - a[i][j]) > tol)
            &&& a[j][i].nan() == a[i][j].nan()
        }
}

/// The entries of a square matrix equal those of its transpose.
pub open spec fn symmetric(a: Seq<Seq<F64>>) -> bool {
    forall|i: int, j: int|
        0 <= i < a.len() && 0 <= j < a.len() ==> #[trigger] a[j][i] == a[i][j]
}

/// The cosine and the sine of the plane rotation that takes `(p, q)` to `(r, 0)`.
pub open spec fn rotation_of(p: F64, q: F64) -> (F64, F64) {
    let ap = magnitude_of(p);
    let aq = magnitude_of(q);
    if p.nan() || q.nan() {
        (one(), zero())
    } else if p.inf() && q.inf() {
        let c = one() / root_of(two());
        (with_sign_of(c, p), with_sign_of(c, q))
    } else if ap <= zero() && aq <= zero() {
        (one(), zero())
    } else if aq <= epsilon() * ap {
        (with_sign_of(one(), p), zero())
    } else if ap <= epsilon() * aq {
        (zero(), with_sign_of(one(), q))
    } else {
        let lo = root_of(realmin());
        let hi = root_of(realmax() / norm_guard());
        if ap > lo && ap < hi && aq > lo && aq < hi {
            let r = norm_of(seq![p, q]);
            (p / r, q / r)
        } else if ap > aq {
            let t = q / p;
            let u = with_sign_of(
                max_of(max_of(one(), magnitude_of(t)), root_of(one() + t * t)),
                p,
            );
            (one() / u, t / u)
        } else {
            let t = p / q;
            let u = with_sign_of(
                max_of(max_of(one(), magnitude_of(t)), root_of(one() + t * t)),
                q,
            );
            (t / u, one() / u)
        }
    }
}

/// The inner product of `x` and `y`.
pub fn inprod(x: &[F64], y: &[F64]) -> (r: F64)
    requires
        x@.len() == y@.len(),
    ensures
        r == dot(x@, y@),
{
    inprod_from(zero(), x, y)
}

/// `acc` plus the inner product of row `i` of `m` and `y`.
pub fn row_inprod_from(acc: F64, m: &Mat, i: usize, y: &[F64]) -> (r: F64)
    requires
        m@.len() >= y@.len(),
        forall|j: int| 0 <= j < m@.len() ==> i < (#[trigger] m@[j]).len(),
    ensures
        r == dot_from(acc, row(m@, i as int), y@, y@.len()),
{
    let mut z: F64 = acc;
    for j in 0..y.len()
        invariant
            m@.len() >= y@.len(),
            forall|c: int| 0 <= c < m@.len() ==> i < (#[trigger] m@[c]).len(),
            z == dot_from(acc, row(m@, i as int), y@, j as nat),
    {
        assert(m@[j as int].len() > i);
        assert(row(m@, i as int)[j as int] == m@[j as int][i as int]);
        z = z + m.get(i, j) * y[j];
    }
    z
}

/// Writes the row vector `x` times the matrix `y` into `z`.
pub fn matprod12_into(x: &[F64], y: &Mat, z: &mut Vec<F64>)
    requires
        y.is(x@.len(), old(z)@.len()),
    ensures
        final(z)@ == vecmat(x@, y@),
{
    let nc: usize = z.len();
    for j in 0..nc
        invariant
            z@.len() == nc,
            y.is(x@.len(), nc as nat),
            forall|c: int| 0 <= c < j ==> z@[c] == dot(x@, y@[c]),
    {
        assert(y@[j as int].len() == x@.len());
        z[j] = inprod(x, y.col(j));
    }
    assert(z@ =~= vecmat(x@, y@));
}

/// The row vector `x` times the matrix `y`.
pub fn matprod12(x: &[F64], y: &Mat) -> (z: Vec<F64>)
    requires
        y.is(x@.len(), y@.len()),
    ensures
        z@ == vecmat(x@, y@),
{
    let mut z: Vec<F64> = zeros(y.ncols());
    matprod12_into(x, y, &mut z);
    z
}

/// Writes the leading columns of `x` times the column vector `y` into `z`.
pub fn matprod21_into(x: &Mat, y: &[F64], z: &mut Vec<F64>)
    requires
        x.is(old(z)@.len(), x@.len()),
        x@.len() >= y@.len(),
    ensures
        final(z)@ == matvec(x@, y@, old(z)@.len()),
{
    let nr: usize = z.len();
    for i in 0..nr
        invariant
            z@.len() == nr,
            x.is(nr as nat, x@.len()),
            x@.len() >= y@.len(),
            forall|r: int| 0 <= r < i ==> z@[r] == dot(row(x@, r), y@),
    {
        z[i] = row_inprod_from(zero(), x, i, y);
    }
    assert(z@ =~= matvec(x@, y@, old(z)@.len()));
}

/// The matrix `x` times the column vector `y`.
pub fn matprod21(x: &Mat, y: &[F64]) -> (z: Vec<F64>)
    requires
        x.is(x.nrows as nat, x@.len()),
        x@.len() >= y@.len(),
    ensures
        z@ == matvec(x@, y@, x.nrows as nat),
{
    let mut z: Vec<F64> = zeros(x.nrows());
    matprod21_into(x, y, &mut z);
    z
}

/// Writes the matrix `x` times the matrix `y` into `z`.
pub fn matprod22_into(x: &Mat, y: &Mat, z: &mut Mat)
    requires
        x.is(x.nrows as nat, x@.len()),
        y.is(x@.len(), y@.len()),
        old(z).is(x.nrows as nat, y@.len()),
    ensures
        final(z)@ == matmat(x@, y@, x.nrows as nat),
        final(z).is(x.nrows as nat, y@.len()),
{
    let nc: usize = y.ncols();
    for j in 0..nc
        invariant
            nc == y@.len(),
            x.is(x.nrows as nat, x@.len()),
            y.is(x@.len(), y@.len()),
            z.is(x.nrows as nat, y@.len()),
            forall|c: int| 0 <= c < j ==> #[trigger] z@[c] == matvec(x@, y@[c], x.nrows as nat),
    {
        let ghost before: Seq<Seq<F64>> = z@;
        assert(z@[j as int].len() == x.nrows);
        assert(y@[j as int].len() == x@.len());
        matprod21_into(x, y.col(j), &mut z.cols[j]);
        assert(z@ =~= before.update(j as int, matvec(x@, y@[j as int], x.nrows as nat)));
    }
    assert(z@ =~= matmat(x@, y@, x.nrows as nat));
}

/// The matrix `x` times the matrix `y`.
pub fn matprod22(x: &Mat, y: &Mat) -> (z: Mat)
    requires
        x.is(x.nrows as nat, x@.len()),
        y.is(x@.len(), y@.len()),
    ensures
        z@ == matmat(x@, y@, x.nrows as nat),
        z.is(x.nrows as nat, y@.len()),
{
    let mut z: Mat = Mat::zeros(x.nrows(), y.ncols());
    matprod22_into(x, y, &mut z);
    z
}

/// Writes `x` times `c` into `z`.
pub fn scaled_into(x: &[F64], c: F64, z: &mut Vec<F64>)
    requires
        old(z)@.len() == x@.len(),
    ensures
        final(z)@ == scaled(x@, c),
{
    for i in 0..x.len()
        invariant
            z@.len() == x@.len(),
            forall|j: int| 0 <= j < i ==> z@[j] == x@[j] * c,
    {
        z[i] = x[i] * c;
    }
    assert(z@ =~= scaled(x@, c));
}

/// Writes the column vector `x` times the row vector `y` into `z`.
pub fn outprod_into(x: &[F64], y: &[F64], z: &mut Mat)
    requires
        old(z).is(x@.len(), y@.len()),
    ensures
        final(z)@ == outer(x@, y@),
        final(z).is(x@.len(), y@.len()),
{
    for j in 0..y.len()
        invariant
            z.is(x@.len(), y@.len()),
            forall|c: int| 0 <= c < j ==> #[trigger] z@[c] == scaled(x@, y@[c]),
    {
        let ghost before: Seq<Seq<F64>> = z@;
        assert(z@[j as int].len() == x@.len());
        scaled_into(x, y[j], &mut z.cols[j]);
        assert(z@ =~= before.update(j as int, scaled(x@, y@[j as int])));
    }
    assert(z@ =~= outer(x@, y@));
}

/// The column vector `x` times the row vector `y`.
pub fn outprod(x: &[F64], y: &[F64]) -> (z: Mat)
    ensures
        z@ == outer(x@, y@),
        z.is(x@.len(), y@.len()),
{
    let mut z: Mat = Mat::zeros(x.len(), y.len());
    outprod_into(x, y, &mut z);
    z
}

/// The sum of the squares of the entries divided by `c`.
fn scaled_sumsq(x: &[F64], c: F64) -> (r: F64)
    ensures
        r == ({
            let s = Seq::new(x@.len(), |i: int| x@[i] / c);
            dot(s, s)
        }),
{
    let ghost s: Seq<F64> = Seq::new(x@.len(), |i: int| x@[i] / c);
    let mut z: F64 = zero();
    for i in 0..x.len()
        invariant
            s == Seq::new(x@.len(), |i: int| x@[i] / c),
            z == dot_from(zero(), s, s, i as nat),
    {
        let v: F64 = x[i] / c;
        z = z + v * v;
    }
    z
}

/// The Euclidean norm.
pub fn norm(x: &[F64]) -> (r: F64)
    ensures
        r == norm_of(x@),
{
    if x.len() == 0 {
        return zero();
    }
    if !is_all_finite(x) {
        return sum_abs(x);
    }
    let maxabs: F64 = largest_abs(x);
    if maxabs.le(zero()) {
        return zero();
    }
    let y: F64 = inprod(x, x).sqrt();
    if (y.is_infinite() && y.is_sign_positive()) || y.le(zero()) {
        let scaling: F64 = scalmax().min(scalmin().max(maxabs));
        scaling * scaled_sumsq(x, scaling).sqrt()
    } else {
        y
    }
}

/// The main diagonal.
pub fn diag(a: &Mat) -> (d: Vec<F64>)
    requires
        a.is(a.nrows as nat, a@.len()),
    ensures
        d@ == Seq::new(
            if a.nrows < a@.len() {
                a.nrows as nat
            } else {
                a@.len()
            },
            |i: int| a@[i][i],
        ),
{
    let n: usize = if a.nrows() < a.ncols() {
        a.nrows()
    } else {
        a.ncols()
    };
    let mut d: Vec<F64> = Vec::with_capacity(n);
    for i in 0..n
        invariant
            d@.len() == i,
            n <= a.nrows,
            n <= a@.len(),
            a.is(a.nrows as nat, a@.len()),
            forall|k: int| 0 <= k < i ==> d@[k] == a@[k][k],
    {
        assert(a@[i as int].len() == a.nrows);
        d.push(a.get(i, i));
    }
    assert(d@ =~= Seq::new(n as nat, |i: int| a@[i][i]));
    d
}

/// The largest absolute value in the matrix, or zero.
pub fn largest_abs_mat(a: &Mat) -> (r: F64)
    ensures
        r == max_abs_mat(a@),
{
    let mut z: F64 = zero();
    let nc: usize = a.ncols();
    for j in 0..nc
        invariant
            nc == a@.len(),
            z == max_abs_cols(zero(), a@, j as nat),
    {
        z = largest_abs_from(z, a.col(j));
    }
    z
}

/// Whether every entry of the matrix is finite.
pub fn is_all_finite_mat(a: &Mat) -> (r: bool)
    ensures
        r == all_finite_mat(a@),
{
    let nc: usize = a.ncols();
    for j in 0..nc
        invariant
            nc == a@.len(),
            forall|c: int| 0 <= c < j ==> all_finite(#[trigger] a@[c]),
    {
        if !is_all_finite(a.col(j)) {
            assert(!all_finite(a@[j as int]));
            return false;
        }
    }
    true
}

/// Whether the matrix is square and symmetric up to the tolerance.
pub fn issymmetric(a: &Mat) -> (r: bool)
    requires
        a.is(a.nrows as nat, a@.len()),
    ensures
        r == (a.nrows == a@.len() && symmetric_within_tolerance(a@)),
{
    let n: usize = a.ncols();
    if a.nrows() != n {
        return false;
    }
    let tol: F64 = symtol() * largest_abs_mat(a).max(one());
    for j in 0..n
        invariant
            a.is(n as nat, n as nat),
            tol == symtol() * max_of(max_abs_mat(a@), one()),
            forall|c: int, i: int|
                0 <= i < n && 0 <= c < j ==> {
                    &&& !(magnitude_of(#[trigger] a@[c][i] - a@[i][c]) > tol)
                    &&& a@[c][i].nan() == a@[i][c].nan()
                },
    {
        for i in 0..n
            invariant
                j < n,
                a.is(n as nat, n as nat),
                tol == symtol() * max_of(max_abs_mat(a@), one()),
                forall|c: int, i: int|
                    0 <= i < n && 0 <= c < j ==> {
                        &&& !(magnitude_of(#[trigger] a@[c][i] - a@[i][c]) > tol)
                        &&& a@[c][i].nan() == a@[i][c].nan()
                    },
                forall|r: int|
                    0 <= r < i ==> {
                        &&& !(magnitude_of(#[trigger] a@[j as int][r] - a@[r][j as int]) > tol)
                        &&& a@[j as int][r].nan() == a@[r][j as int].nan()
                    },
        {
            assert(a@[j as int].len() == n && a@[i as int].len() == n);
            let p: F64 = a.get(i, j);
            let q: F64 = a.get(j, i);
            if (p - q).abs().gt(tol) {
                assert(magnitude_of(a@[j as int][i as int] - a@[i as int][j as int]) > tol);
                return false;
            }
            if p.is_nan() != q.is_nan() {
                assert(magnitude_of(a@[j as int][i as int] - a@[i as int][j as int]) == magnitude_of(p - q));
                return false;
            }
        }
    }
    true
}

/// The positions of `true`, ascending.
pub fn trueloc(x: &[bool]) -> (loc: Vec<usize>)
    ensures
        forall|k: int| 0 <= k < loc@.len() ==> #[trigger] loc@[k] < x@.len() && x@[loc@[k] as int],
        forall|k: int, l: int| 0 <= k < l < loc@.len() ==> loc@[k] < loc@[l],
        forall|i: int| 0 <= i < x@.len() && #[trigger] x@[i] ==> loc@.contains(i as usize),
{
    let mut loc: Vec<usize> = Vec::with_capacity(x.len());
    for i in 0..x.len()
        invariant
            forall|k: int| 0 <= k < loc@.len() ==> #[trigger] loc@[k] < i && x@[loc@[k] as int],
            forall|k: int, l: int| 0 <= k < l < loc@.len() ==> loc@[k] < loc@[l],
            forall|p: int| 0 <= p < i && #[trigger] x@[p] ==> loc@.contains(p as usize),
    {
        let ghost before: Seq<usize> = loc@;
        if x[i] {
            loc.push(i);
            assert(loc@[before.len() as int] == i);
            assert forall|p: int| 0 <= p < i + 1 && #[trigger] x@[p] implies loc@.contains(
                p as usize,
            ) by {
                if p < i {
                    let k = choose|k: int| 0 <= k < before.len() && before[k] == p as usize;
                    assert(loc@[k] == p as usize);
                }
            }
        }
    }
    loc
}

/// The plane rotation `((c, s), (-s, c))` that takes `(p, q)` to `(r, 0)`, with every zero,
/// infinite and NaN case covered.
pub fn planerot(p: F64, q: F64) -> (g: ((F64, F64), (F64, F64)))
    ensures
        g.0 == rotation_of(p, q),
        g.1 == (-g.0.1, g.0.0),
{
    let ap: F64 = p.abs();
    let aq: F64 = q.abs();
    let (c, s): (F64, F64) = if p.is_nan() || q.is_nan() {
        (one(), zero())
    } else if p.is_infinite() && q.is_infinite() {
        let h: F64 = one() / two().sqrt();
        (h.copysign(p), h.copysign(q))
    } else if ap.le(zero()) && aq.le(zero()) {
        (one(), zero())
    } else if aq.le(epsilon() * ap) {
        (one().copysign(p), zero())
    } else if ap.le(epsilon() * aq) {
        (zero(), one().copysign(q))
    } else {
        let lo: F64 = realmin().sqrt();
        let hi: F64 = (realmax() / norm_guard()).sqrt();
        if ap.gt(lo) && ap.lt(hi) && aq.gt(lo) && aq.lt(hi) {
            let pair: [F64; 2] = [p, q];
            assert(pair@ =~= seq![p, q]);
            let r: F64 = norm(&pair);
            (p / r, q / r)
        } else if ap.gt(aq) {
            let t: F64 = q / p;
            let u: F64 = one().max(t.abs()).max((one() + t * t).sqrt()).copysign(p);
            (one() / u, t / u)
        } else {
            let t: F64 = p / q;
            let u: F64 = one().max(t.abs()).max((one() + t * t).sqrt()).copysign(q);
            (t / u, one() / u)
        }
    };
    ((c, s), (s.negated(), c))
}

/// Copies the lower triangle of a square matrix to the upper one.
pub fn symmetrize(a: &mut Mat)
    requires
        old(a).is(old(a)@.len(), old(a)@.len()),
    ensures
        final(a)@ == mirrored(old(a)@),
        final(a).is(old(a)@.len(), old(a)@.len()),
{
    let n: usize = a.ncols();
    let ghost before: Seq<Seq<F64>> = a@;
    for j in 0..n
        invariant
            shaped(before, n as nat, n as nat),
            a.is(n as nat, n as nat),
            forall|c: int, r: int|
                0 <= c < n && 0 <= r < n ==> #[trigger] a@[c][r] == (if r < c && c < j {
                    before[r][c]
                } else {
                    before[c][r]
                }),
    {
        for i in 0..j
            invariant
                j < n,
                shaped(before, n as nat, n as nat),
                a.is(n as nat, n as nat),
                forall|c: int, r: int|
                    0 <= c < n && 0 <= r < n ==> #[trigger] a@[c][r] == (if r < c && (c < j || (c
                        == j && r < i)) {
                        before[r][c]
                    } else {
                        before[c][r]
                    }),
        {
            assert(a@[i as int].len() == n && a@[j as int].len() == n);
            let v: F64 = a.get(j, i);
            a.set(i, j, v);
        }
    }
    assert forall|c: int| 0 <= c < n implies #[trigger] a@[c] == mirrored(before)[c] by {
        assert(a@[c] =~= mirrored(before)[c]);
    }
    assert(a@ =~= mirrored(before));
}

/// Adds `alpha x x'` to a symmetric matrix: to the lower triangle, which is then copied.
pub fn r1update(a: &mut Mat, alpha: F64, x: &[F64])
    requires
        old(a).is(x@.len(), x@.len()),
    ensures
        final(a)@ == rank_one(old(a)@, alpha, x@),
        final(a).is(x@.len(), x@.len()),
{
    let n: usize = x.len();
    let ghost before: Seq<Seq<F64>> = a@;
    for j in 0..n
        invariant
            n == x@.len(),
            a.is(n as nat, n as nat),
            forall|c: int| 0 <= c < j ==> #[trigger] a@[c] == raised1(before[c], c, alpha, x@),
            forall|c: int| j <= c < n ==> #[trigger] a@[c] == before[c],
    {
        let ghost now: Seq<Seq<F64>> = a@;
        assert(a@[j as int].len() == n);
        raise1(&mut a.cols[j], j, alpha, x);
        assert(a@ =~= now.update(j as int, raised1(now[j as int], j as int, alpha, x@)));
    }
    assert(a@ =~= Seq::new(n as nat, |j: int| raised1(before[j], j, alpha, x@)));
    symmetrize(a);
}

fn raise1(col: &mut Vec<F64>, j: usize, alpha: F64, x: &[F64])
    requires
        old(col)@.len() == x@.len(),
        j < x@.len(),
    ensures
        final(col)@ == raised1(old(col)@, j as int, alpha, x@),
{
    let ghost before: Seq<F64> = col@;
    for i in j..x.len()
        invariant
            col@.len() == x@.len(),
            before.len() == x@.len(),
            j < x@.len(),
            forall|k: int| 0 <= k < j ==> col@[k] == before[k],
            forall|k: int| j <= k < i ==> col@[k] == before[k] + alpha * x@[k] * x@[j as int],
            forall|k: int| i <= k < x@.len() ==> col@[k] == before[k],
    {
        col[i] = col[i] + alpha * x[i] * x[j];
    }
    assert(col@ =~= raised1(before, j as int, alpha, x@));
}

/// Adds `alpha (x y' + y x')` to a symmetric matrix: to the lower triangle, one product after
/// the other, which is then copied.
pub fn r2update(a: &mut Mat, alpha: F64, x: &[F64], y: &[F64])
    requires
        old(a).is(x@.len(), x@.len()),
        y@.len() == x@.len(),
    ensures
        final(a)@ == rank_two(old(a)@, alpha, x@, y@),
        final(a).is(x@.len(), x@.len()),
{
    let n: usize = x.len();
    let ghost before: Seq<Seq<F64>> = a@;
    for j in 0..n
        invariant
            n == x@.len(),
            n == y@.len(),
            a.is(n as nat, n as nat),
            forall|c: int| 0 <= c < j ==> #[trigger] a@[c] == raised2(before[c], c, alpha, x@, y@),
            forall|c: int| j <= c < n ==> #[trigger] a@[c] == before[c],
    {
        let ghost now: Seq<Seq<F64>> = a@;
        assert(a@[j as int].len() == n);
        raise2(&mut a.cols[j], j, alpha, x, y);
        assert(a@ =~= now.update(j as int, raised2(now[j as int], j as int, alpha, x@, y@)));
    }
    assert(a@ =~= Seq::new(n as nat, |j: int| raised2(before[j], j, alpha, x@, y@)));
    symmetrize(a);
}

fn raise2(col: &mut Vec<F64>, j: usize, alpha: F64, x: &[F64], y: &[F64])
    requires
        old(col)@.len() == x@.len(),
        y@.len() == x@.len(),
        j < x@.len(),
    ensures
        final(col)@ == raised2(old(col)@, j as int, alpha, x@, y@),
{
    let ghost before: Seq<F64> = col@;
    for i in j..x.len()
        invariant
            col@.len() == x@.len(),
            y@.len() == x@.len(),
            before.len() == x@.len(),
            j < x@.len(),
            forall|k: int| 0 <= k < j ==> col@[k] == before[k],
            forall|k: int|
                j <= k < i ==> col@[k] == (before[k] + alpha * x@[k] * y@[j as int]) + alpha * y@[k]
                    * x@[j as int],
            forall|k: int| i <= k < x@.len() ==> col@[k] == before[k],
    {
        col[i] = (col[i] + alpha * x[i] * y[j]) + alpha * y[i] * x[j];
    }
    assert(col@ =~= raised2(before, j as int, alpha, x@, y@));
}

/// A mirrored matrix is symmetric, and so are the matrices after rank-one and rank-two updates.
pub proof fn lemma_mirrored_symmetric(m: Seq<Seq<F64>>)
    ensures
        symmetric(mirrored(m)),
        shaped(mirrored(m), m.len(), m.len()),
{
}

/// Norms have a clear sign bit.
pub proof fn lemma_norm_sign(x: Seq<F64>)
    ensures
        !norm_of(x).sign(),
{
    lemma_abs_sum_sign(x, x.len());
    lemma_dot_sign(x, x.len());
    lemma_root_sign(dot(x, x));
    lemma_max_sign(zero(), magnitudes(x), x.len());
    reveal(min_of);
    reveal(max_of);
    let c = min_of(scalmax(), max_of(scalmin(), max_abs(x)));
    let s = Seq::new(x.len(), |i: int| x[i] / c);
    lemma_dot_sign(s, s.len());
    lemma_root_sign(dot(s, s));
    lemma_sign_stays(c, root_of(dot(s, s)));
}

} // verus!
