//! Where the points of the initial set lie.
use vstd::prelude::*;

use crate::bobyqb::course::laid_out;
use crate::bobyqb::course::Task;
use crate::bobyqb::span::leaves_room;
use crate::bobyqb::span::lemma_room;
use crate::bobyqb::span::roomy;
use crate::consts::two;
use crate::consts::zero;
use crate::float::arith::lemma_fields;
use crate::float::arith::product_of;
use crate::float::near::lemma_negation_value;
use crate::float::near::lemma_order_value;
use crate::float::near::lemma_two_exact;
use crate::float::near::lemma_two_product;
use crate::float::order::at_most;
use crate::float::order::below;
use crate::float::order::max_of;
use crate::float::order::min_of;
use crate::float::F64;
use crate::initialize::exchange_limit;
use crate::initialize::first_move;
use crate::initialize::ordered_points;
use crate::initialize::ordered_values;
use crate::initialize::second_move;
use crate::initialize::start_of;
use crate::initialize::with_pairs;
use crate::powalg::lemma_pairs_distinct;
use crate::powalg::pairs_of;

verus! {

/// The moves on a coordinate direction: one by the radius, away from an upper bound that the start
/// is on; and one by the radius to the other side, or by twice the radius to the same side where
/// the start is on a bound.
proof fn lemma_moves(x0: F64, xl: F64, xu: F64, rho: F64)
    requires
        rho.finite(),
        zero() < rho,
        leaves_room(xl, xu, rho),
    ensures
        ({
            let s = start_of(x0, xl, xu, rho);
            let a = first_move(rho, s.su);
            let c = second_move(rho, s.sl, s.su);
            &&& a.finite() && c.finite()
            &&& a.value() == rho.value() || a.value() == -rho.value()
            &&& s.su.zero() <==> a.value() < 0
            &&& s.su.zero() || s.sl.zero() ==> c.value() == 2 * a.value()
            &&& !s.su.zero() && !s.sl.zero() ==> c.value() == -a.value()
        }),
{
    let s = start_of(x0, xl, xu, rho);
    lemma_fields(0);
    assert(!rho.sign()) by {
        reveal(below);
    }
    lemma_room(xl, xu, rho);
    lemma_two_product(rho);
    lemma_negation_value(rho);
    lemma_negation_value(two());
    assert((two() * rho).finite()) by {
        reveal(at_most);
    }
    lemma_two_exact(rho);
    lemma_order_value(zero(), rho);
    let b = (-two()) * rho;
    assert(b.finite() && b.value() == -(2 * rho.value())) by {
        reveal(product_of);
    }
    reveal(max_of);
    reveal(min_of);
    reveal(at_most);
    reveal(below);
}

/// The points on the coordinate directions, counted from the base point.  Each has one coordinate
/// that is not zero.  The first point of a direction is the initial radius away, exactly; the
/// second one is as far on the other side, or twice as far on the same side where the base point is
/// on a bound of that variable.
pub proof fn lemma_axis_points(t: Task, npt: nat, x0: Seq<F64>, i: int, j: int)
    requires
        roomy(t),
        zero() < t.set.rhobeg,
        0 <= i < t.xl.len(),
        0 <= j < t.xl.len(),
        t.xl.len() + 1 <= npt,
    ensures
        ({
            let m = laid_out(t, npt, x0);
            let n = t.xl.len();
            let rho = t.set.rhobeg.value();
            let a = m.xpt[i + 1][i].value();
            let c = m.xpt[n + 1 + i][i].value();
            &&& m.xpt[0][j].zero()
            &&& m.xpt[i + 1][i].finite()
            &&& a == rho || a == -rho
            &&& a < 0 <==> m.su[i].zero()
            &&& j != i ==> m.xpt[i + 1][j].zero()
            &&& n + 1 + i < npt ==> {
                &&& m.xpt[n + 1 + i][i].finite()
                &&& c == (if m.su[i].zero() || m.sl[i].zero() {
                    2 * a
                } else {
                    -a
                })
                &&& j != i ==> m.xpt[n + 1 + i][j].zero()
            }
        }),
{
    assert(leaves_room(t.xl[i], t.xu[i], t.set.rhobeg));
    lemma_moves(x0[i], t.xl[i], t.xu[i], t.set.rhobeg);
}

/// A point beyond those on the coordinate directions is the sum of the first points on two
/// different directions, no two of them on the same two.
pub proof fn lemma_pair_points(n: nat, x: Seq<Seq<F64>>, c: int, e: int, j: int)
    requires
        0 < n <= usize::MAX,
        2 * x.len() <= (n + 1) * (n + 2),
        2 * n + 1 <= c < x.len(),
        2 * n + 1 <= e < x.len(),
        0 <= j < n,
        forall|k: int, i: int|
            1 <= k <= n && 0 <= i < n ==> {
                &&& x[k].len() == n
                &&& (#[trigger] x[k][i]).finite()
                &&& i + 1 != k ==> x[k][i].zero()
            },
    ensures
        ({
            let p = pairs_of(n, x.len())[c - 2 * n - 1];
            let q = pairs_of(n, x.len())[e - 2 * n - 1];
            let y = with_pairs(n, x);
            &&& p.0 < n && p.1 < n && p.0 != p.1
            &&& c != e ==> p != q && p != (q.1, q.0)
            &&& y[c][j].finite()
            &&& y[c][j].value() == (if j == p.0 || j == p.1 {
                x[j + 1][j].value()
            } else {
                0
            })
        }),
{
    let p = pairs_of(n, x.len())[c - 2 * n - 1];
    lemma_pairs_distinct(n, x.len(), c - 2 * n - 1, e - 2 * n - 1);
    lemma_fields(0);
    let a = x[p.0 as int + 1][j];
    let b = x[p.1 as int + 1][j];
    let y = with_pairs(n, x);
    assert(a.finite() && b.finite());
    assert(x[p.0 as int + 1].len() == n);
    assert(y[c][j] == a + b);
    if j != p.0 {
        assert(a.zero());
    }
    if j != p.1 {
        assert(b.zero());
    }
    crate::float::near::lemma_zero_keeps(a, if b.zero() { b } else { zero() });
    crate::float::near::lemma_zero_keeps(b, if a.zero() { a } else { zero() });
    lemma_same_value(a, b);
}

/// The sum of a number and a zero.
proof fn lemma_same_value(a: F64, b: F64)
    requires
        a.finite(),
        b.finite(),
        a.zero() || b.zero(),
    ensures
        (a + b).finite(),
        (a + b).value() == a.value() + b.value(),
{
    reveal(crate::float::arith::sum_of);
    lemma_fields(0);
    crate::float::near::lemma_round_exact(a.mag(), 1);
    crate::float::near::lemma_round_exact(b.mag(), 1);
}

/// The two points on a direction stay the points of that direction; where they lie on different
/// sides of the base point, the better one comes first.
pub proof fn lemma_better_first(n: nat, fval: Seq<F64>, x: Seq<Seq<F64>>, j: int)
    requires
        fval.len() == x.len(),
        1 <= j < exchange_limit(n, x.len()),
        x.len() > n,
        j + n < x.len(),
        !fval[j].nan(),
        !fval[j + n].nan(),
    ensures
        ({
            let y = ordered_points(n, fval, x);
            let g = ordered_values(n, fval, x);
            &&& y[j] == x[j] && g[j] == fval[j] && y[j + n] == x[j + n] && g[j + n] == fval[j + n]
                || y[j] == x[j + n] && g[j] == fval[j + n] && y[j + n] == x[j] && g[j + n]
                == fval[j]
            &&& x[j][j - 1] * x[j + n][j - 1] < zero() ==> g[j] <= g[j + n]
            &&& !(x[j][j - 1] * x[j + n][j - 1] < zero()) ==> y[j] == x[j]
        }),
{
    reveal(at_most);
    reveal(below);
}

} // verus!
