//! Folds and elementwise operations on vectors.
//!
//! Every sum is accumulated from zero in ascending order of the index, so that each result is
//! fixed to the last bit.
use vstd::prelude::*;

use crate::consts::zero;
use crate::float::arith::lemma_product_commutes;
use crate::float::arith::lemma_sign_stays;
use crate::float::arith::lemma_zero_stays;
use crate::float::arith::magnitude_of;
use crate::float::arith::product_of;
use crate::float::arith::sum_of;
use crate::float::order::below;
use crate::float::order::max_of;
use crate::float::order::same;
use crate::float::F64;

verus! {

/// `acc` plus the products of the first `k` entries, added one after the other.
pub open spec fn dot_from(acc: F64, x: Seq<F64>, y: Seq<F64>, k: nat) -> F64
    decreases k,
{
    if k == 0 {
        acc
    } else {
        dot_from(acc, x, y, (k - 1) as nat) + x[k - 1] * y[k - 1]
    }
}

/// The inner product, over the length of the second vector.
pub open spec fn dot(x: Seq<F64>, y: Seq<F64>) -> F64 {
    dot_from(zero(), x, y, y.len())
}

/// The sum of the first `k` entries.
pub open spec fn partial_sum(x: Seq<F64>, k: nat) -> F64
    decreases k,
{
    if k == 0 {
        zero()
    } else {
        partial_sum(x, (k - 1) as nat) + x[k - 1]
    }
}

/// The sum of the entries.
pub open spec fn total(x: Seq<F64>) -> F64 {
    partial_sum(x, x.len())
}

/// The absolute values of the entries.
pub open spec fn magnitudes(x: Seq<F64>) -> Seq<F64> {
    Seq::new(x.len(), |i: int| magnitude_of(x[i]))
}

/// The sum of the absolute values.
pub open spec fn abs_sum(x: Seq<F64>) -> F64 {
    total(magnitudes(x))
}

/// The largest of `acc` and the first `k` entries, NaN giving way.
pub open spec fn max_from(acc: F64, x: Seq<F64>, k: nat) -> F64
    decreases k,
{
    if k == 0 {
        acc
    } else {
        max_of(max_from(acc, x, (k - 1) as nat), x[k - 1])
    }
}

/// The largest absolute value, or zero.
pub open spec fn max_abs(x: Seq<F64>) -> F64 {
    max_from(zero(), magnitudes(x), x.len())
}

/// No entry is infinite or NaN.
pub open spec fn all_finite(x: Seq<F64>) -> bool {
    forall|i: int| 0 <= i < x.len() ==> (#[trigger] x[i]).finite()
}

/// The two points are the same.
pub open spec fn same_point(x: Seq<F64>, y: Seq<F64>) -> bool {
    &&& x.len() == y.len()
    &&& forall|i: int| 0 <= i < x.len() ==> same(#[trigger] x[i], y[i])
}

/// Some entry is NaN.
pub open spec fn any_nan(x: Seq<F64>) -> bool {
    exists|i: int| 0 <= i < x.len() && (#[trigger] x[i]).nan()
}

/// Some entry lies above `v`.
pub open spec fn any_above(x: Seq<F64>, v: F64) -> bool {
    exists|i: int| 0 <= i < x.len() && #[trigger] x[i] > v
}

/// Some entry lies below `v`.
pub open spec fn any_below(x: Seq<F64>, v: F64) -> bool {
    exists|i: int| 0 <= i < x.len() && #[trigger] x[i] < v
}

/// No entry lies above `v` or is NaN.
pub open spec fn all_at_most(x: Seq<F64>, v: F64) -> bool {
    forall|i: int| 0 <= i < x.len() ==> #[trigger] x[i] <= v
}

/// The vector with `n` equal entries.
pub open spec fn constant(n: nat, v: F64) -> Seq<F64> {
    Seq::new(n, |i: int| v)
}

/// The entries of `z` plus those of `v`.
pub open spec fn plus(z: Seq<F64>, v: Seq<F64>) -> Seq<F64> {
    Seq::new(z.len(), |i: int| z[i] + v[i])
}

/// The entries of `z` minus those of `v`.
pub open spec fn minus(z: Seq<F64>, v: Seq<F64>) -> Seq<F64> {
    Seq::new(z.len(), |i: int| z[i] - v[i])
}

/// The entries of `z` plus those of `v` times `c`.
pub open spec fn plus_scaled(z: Seq<F64>, v: Seq<F64>, c: F64) -> Seq<F64> {
    Seq::new(z.len(), |i: int| z[i] + v[i] * c)
}

/// The entries of `v` times `c`.
pub open spec fn scaled(v: Seq<F64>, c: F64) -> Seq<F64> {
    Seq::new(v.len(), |i: int| v[i] * c)
}

/// The products of the entries.
pub open spec fn products(x: Seq<F64>, y: Seq<F64>) -> Seq<F64> {
    Seq::new(x.len(), |i: int| x[i] * y[i])
}

/// The first index among the first `k` of which the entry is not below any other one, found by
/// comparing with `>` in ascending order.
pub open spec fn first_max(x: Seq<F64>, k: nat) -> int
    decreases k,
{
    if k <= 1 {
        0
    } else {
        let best = first_max(x, (k - 1) as nat);
        if x[k - 1] > x[best] {
            k - 1
        } else {
            best
        }
    }
}

/// The first index among the first `k` of which the entry is not above any other one, found by
/// comparing with `<` in ascending order.
pub open spec fn first_min(x: Seq<F64>, k: nat) -> int
    decreases k,
{
    if k <= 1 {
        0
    } else {
        let best = first_min(x, (k - 1) as nat);
        if x[k - 1] < x[best] {
            k - 1
        } else {
            best
        }
    }
}

/// The positions found by the scans are among those scanned.
pub proof fn lemma_first_in_range(x: Seq<F64>, k: nat)
    requires
        k > 0,
    ensures
        0 <= first_max(x, k) < k,
        0 <= first_min(x, k) < k,
    decreases k,
{
    if k > 1 {
        lemma_first_in_range(x, (k - 1) as nat);
    }
}

/// A vector of `n` zeros.
pub fn zeros(n: usize) -> (r: Vec<F64>)
    ensures
        r@ == constant(n as nat, zero()),
{
    let mut r: Vec<F64> = Vec::with_capacity(n);
    for i in 0..n
        invariant
            r@.len() == i,
            forall|j: int| 0 <= j < i ==> r@[j] == zero(),
    {
        r.push(zero());
    }
    assert(r@ =~= constant(n as nat, zero()));
    r
}

/// Sets every entry to `v`.
pub fn fill(z: &mut Vec<F64>, v: F64)
    ensures
        final(z)@ == constant(old(z)@.len(), v),
{
    let n: usize = z.len();
    for i in 0..n
        invariant
            z@.len() == n,
            n == old(z)@.len(),
            forall|j: int| 0 <= j < i ==> z@[j] == v,
    {
        z[i] = v;
    }
    assert(z@ =~= constant(old(z)@.len(), v));
}

/// Overwrites `z` with `x`.
pub fn copy(z: &mut Vec<F64>, x: &[F64])
    requires
        old(z)@.len() == x@.len(),
    ensures
        final(z)@ == x@,
{
    for i in 0..x.len()
        invariant
            z@.len() == x@.len(),
            forall|j: int| 0 <= j < i ==> z@[j] == x@[j],
    {
        z[i] = x[i];
    }
    assert(z@ =~= x@);
}

/// `acc` plus the inner product of `x` and `y`.
pub fn inprod_from(acc: F64, x: &[F64], y: &[F64]) -> (r: F64)
    requires
        x@.len() >= y@.len(),
    ensures
        r == dot_from(acc, x@, y@, y@.len()),
{
    let mut z: F64 = acc;
    for i in 0..y.len()
        invariant
            x@.len() >= y@.len(),
            z == dot_from(acc, x@, y@, i as nat),
    {
        z = z + x[i] * y[i];
    }
    z
}

/// The sum of the entries.
pub fn sum(x: &[F64]) -> (r: F64)
    ensures
        r == total(x@),
{
    let mut z: F64 = zero();
    for i in 0..x.len()
        invariant
            z == partial_sum(x@, i as nat),
    {
        z = z + x[i];
    }
    z
}

/// The sum of the absolute values.
pub fn sum_abs(x: &[F64]) -> (r: F64)
    ensures
        r == abs_sum(x@),
{
    let mut z: F64 = zero();
    for i in 0..x.len()
        invariant
            z == partial_sum(magnitudes(x@), i as nat),
    {
        z = z + x[i].abs();
    }
    z
}

/// The largest absolute value, or zero.
pub fn largest_abs(x: &[F64]) -> (r: F64)
    ensures
        r == max_abs(x@),
{
    largest_abs_from(zero(), x)
}

/// The largest of `acc` and the absolute values.
pub fn largest_abs_from(acc: F64, x: &[F64]) -> (r: F64)
    ensures
        r == max_from(acc, magnitudes(x@), x@.len()),
{
    let mut z: F64 = acc;
    for i in 0..x.len()
        invariant
            z == max_from(acc, magnitudes(x@), i as nat),
    {
        z = z.max(x[i].abs());
    }
    z
}

/// Whether no entry is infinite or NaN.
pub fn is_all_finite(x: &[F64]) -> (r: bool)
    ensures
        r == all_finite(x@),
{
    for i in 0..x.len()
        invariant
            forall|j: int| 0 <= j < i ==> (#[trigger] x@[j]).finite(),
    {
        if !x[i].is_finite() {
            return false;
        }
    }
    true
}

/// Whether some entry is NaN.
pub fn has_nan(x: &[F64]) -> (r: bool)
    ensures
        r == any_nan(x@),
{
    for i in 0..x.len()
        invariant
            forall|j: int| 0 <= j < i ==> !(#[trigger] x@[j]).nan(),
    {
        if x[i].is_nan() {
            return true;
        }
    }
    false
}

/// Whether some entry lies above `v`.
pub fn has_above(x: &[F64], v: F64) -> (r: bool)
    ensures
        r == any_above(x@, v),
{
    for i in 0..x.len()
        invariant
            forall|j: int| 0 <= j < i ==> !(#[trigger] x@[j] > v),
    {
        if x[i].gt(v) {
            return true;
        }
    }
    false
}

/// Whether some entry lies below `v`.
pub fn has_below(x: &[F64], v: F64) -> (r: bool)
    ensures
        r == any_below(x@, v),
{
    for i in 0..x.len()
        invariant
            forall|j: int| 0 <= j < i ==> !(#[trigger] x@[j] < v),
    {
        if x[i].lt(v) {
            return true;
        }
    }
    false
}

/// Whether every entry is at most `v`.
pub fn is_all_at_most(x: &[F64], v: F64) -> (r: bool)
    ensures
        r == all_at_most(x@, v),
{
    for i in 0..x.len()
        invariant
            forall|j: int| 0 <= j < i ==> #[trigger] x@[j] <= v,
    {
        if !x[i].le(v) {
            return false;
        }
    }
    true
}

/// The first position of the largest entry.
pub fn argmax(x: &[F64]) -> (r: usize)
    requires
        x@.len() > 0,
    ensures
        r == first_max(x@, x@.len()),
        r < x@.len(),
{
    let mut best: usize = 0;
    for k in 1..x.len()
        invariant
            best < k <= x@.len(),
            best == first_max(x@, k as nat),
    {
        if x[k].gt(x[best]) {
            best = k;
        }
    }
    best
}

/// The first position of the smallest entry.
pub fn argmin(x: &[F64]) -> (r: usize)
    requires
        x@.len() > 0,
    ensures
        r == first_min(x@, x@.len()),
        r < x@.len(),
{
    let mut best: usize = 0;
    for k in 1..x.len()
        invariant
            best < k <= x@.len(),
            best == first_min(x@, k as nat),
    {
        if x[k].lt(x[best]) {
            best = k;
        }
    }
    best
}

/// Adds `v` to `z`.
pub fn accumulate(z: &mut Vec<F64>, v: &[F64])
    requires
        v@.len() >= old(z)@.len(),
    ensures
        final(z)@ == plus(old(z)@, v@),
{
    let n: usize = z.len();
    for i in 0..n
        invariant
            z@.len() == n,
            n == old(z)@.len(),
            v@.len() >= n,
            forall|j: int| 0 <= j < i ==> z@[j] == old(z)@[j] + v@[j],
            forall|j: int| i <= j < n ==> z@[j] == old(z)@[j],
    {
        z[i] = z[i] + v[i];
    }
    assert(z@ =~= plus(old(z)@, v@));
}

/// Takes `v` from `z`.
pub fn deduct(z: &mut Vec<F64>, v: &[F64])
    requires
        v@.len() >= old(z)@.len(),
    ensures
        final(z)@ == minus(old(z)@, v@),
{
    let n: usize = z.len();
    for i in 0..n
        invariant
            z@.len() == n,
            n == old(z)@.len(),
            v@.len() >= n,
            forall|j: int| 0 <= j < i ==> z@[j] == old(z)@[j] - v@[j],
            forall|j: int| i <= j < n ==> z@[j] == old(z)@[j],
    {
        z[i] = z[i] - v[i];
    }
    assert(z@ =~= minus(old(z)@, v@));
}

/// Adds `v` times `c` to `z`.
pub fn accumulate_scaled(z: &mut Vec<F64>, v: &[F64], c: F64)
    requires
        v@.len() >= old(z)@.len(),
    ensures
        final(z)@ == plus_scaled(old(z)@, v@, c),
{
    let n: usize = z.len();
    for i in 0..n
        invariant
            z@.len() == n,
            n == old(z)@.len(),
            v@.len() >= n,
            forall|j: int| 0 <= j < i ==> z@[j] == old(z)@[j] + v@[j] * c,
            forall|j: int| i <= j < n ==> z@[j] == old(z)@[j],
    {
        z[i] = z[i] + v[i] * c;
    }
    assert(z@ =~= plus_scaled(old(z)@, v@, c));
}

/// Multiplies `z` by `c`.
pub fn scale(z: &mut Vec<F64>, c: F64)
    ensures
        final(z)@ == scaled(old(z)@, c),
{
    let n: usize = z.len();
    for i in 0..n
        invariant
            z@.len() == n,
            n == old(z)@.len(),
            forall|j: int| 0 <= j < i ==> z@[j] == old(z)@[j] * c,
            forall|j: int| i <= j < n ==> z@[j] == old(z)@[j],
    {
        z[i] = z[i] * c;
    }
    assert(z@ =~= scaled(old(z)@, c));
}

/// Multiplies the entries of `z` by those of `v`.
pub fn multiply(z: &mut Vec<F64>, v: &[F64])
    requires
        v@.len() >= old(z)@.len(),
    ensures
        final(z)@ == products(old(z)@, v@),
{
    let n: usize = z.len();
    for i in 0..n
        invariant
            z@.len() == n,
            n == old(z)@.len(),
            v@.len() >= n,
            forall|j: int| 0 <= j < i ==> z@[j] == old(z)@[j] * v@[j],
            forall|j: int| i <= j < n ==> z@[j] == old(z)@[j],
    {
        z[i] = z[i] * v[i];
    }
    assert(z@ =~= products(old(z)@, v@));
}

/// Writes `x + v` into `z`.
pub fn sum_into(x: &[F64], v: &[F64], z: &mut Vec<F64>)
    requires
        v@.len() >= x@.len(),
        old(z)@.len() == x@.len(),
    ensures
        final(z)@ == plus(x@, v@),
{
    for i in 0..x.len()
        invariant
            z@.len() == x@.len(),
            v@.len() >= x@.len(),
            forall|j: int| 0 <= j < i ==> z@[j] == x@[j] + v@[j],
    {
        z[i] = x[i] + v[i];
    }
    assert(z@ =~= plus(x@, v@));
}

/// Writes `x - v` into `z`.
pub fn difference_into(x: &[F64], v: &[F64], z: &mut Vec<F64>)
    requires
        v@.len() >= x@.len(),
        old(z)@.len() == x@.len(),
    ensures
        final(z)@ == minus(x@, v@),
{
    for i in 0..x.len()
        invariant
            z@.len() == x@.len(),
            v@.len() >= x@.len(),
            forall|j: int| 0 <= j < i ==> z@[j] == x@[j] - v@[j],
    {
        z[i] = x[i] - v[i];
    }
    assert(z@ =~= minus(x@, v@));
}

/// Inner products do not depend on the order of the factors.
pub proof fn lemma_dot_commutes(acc: F64, x: Seq<F64>, y: Seq<F64>, k: nat)
    requires
        k <= x.len(),
        k <= y.len(),
    ensures
        dot_from(acc, x, y, k) == dot_from(acc, y, x, k),
    decreases k,
{
    if k > 0 {
        lemma_dot_commutes(acc, x, y, (k - 1) as nat);
        lemma_product_commutes(x[k - 1], y[k - 1]);
    }
}

/// The largest one of numbers and a number with a clear sign bit has one, too.
pub proof fn lemma_max_sign(acc: F64, x: Seq<F64>, k: nat)
    requires
        !acc.nan(),
        !acc.sign(),
        k <= x.len(),
    ensures
        !max_from(acc, x, k).nan(),
        !max_from(acc, x, k).sign(),
    decreases k,
{
    if k > 0 {
        lemma_max_sign(acc, x, (k - 1) as nat);
        reveal(max_of);
        reveal(below);
    }
}

/// The inner product of a vector with itself has a clear sign bit, and is NaN only if an entry
/// is.
pub proof fn lemma_dot_sign(x: Seq<F64>, k: nat)
    requires
        k <= x.len(),
    ensures
        !dot_from(zero(), x, x, k).sign(),
        !any_nan(x) ==> !dot_from(zero(), x, x, k).nan(),
    decreases k,
{
    if k > 0 {
        lemma_dot_sign(x, (k - 1) as nat);
        let v = x[k - 1];
        reveal(sum_of);
        reveal(product_of);
    }
}

/// The sum of absolute values has a clear sign bit.
pub proof fn lemma_abs_sum_sign(x: Seq<F64>, k: nat)
    requires
        k <= x.len(),
    ensures
        !partial_sum(magnitudes(x), k).sign(),
    decreases k,
{
    if k > 0 {
        lemma_abs_sum_sign(x, (k - 1) as nat);
        reveal(magnitude_of);
        lemma_sign_stays(partial_sum(magnitudes(x), (k - 1) as nat), magnitude_of(x[k - 1]));
    }
}

/// The inner product of zeros with finite numbers is zero.
pub proof fn lemma_dot_zero(x: Seq<F64>, y: Seq<F64>, k: nat)
    requires
        forall|i: int|
            0 <= i < k ==> (#[trigger] x[i]).finite() && y[i].finite() && (x[i].zero()
                || y[i].zero()),
    ensures
        dot_from(zero(), x, y, k).zero(),
    decreases k,
{
    if k > 0 {
        lemma_dot_zero(x, y, (k - 1) as nat);
        let a = x[k - 1];
        let b = y[k - 1];
        assert(a.zero() || b.zero());
        if a.zero() {
            lemma_zero_stays(a, b);
        } else {
            lemma_zero_stays(b, a);
        }
        lemma_zero_stays(dot_from(zero(), x, y, (k - 1) as nat), a * b);
    }
}

} // verus!
