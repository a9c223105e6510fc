//! Moderation of points and values, evaluation of the objective, exit tests, placement of points
//! in the box, and the search for a maximizer on an interval.
use vstd::prelude::*;

pub mod interval;

use crate::consts::funcmax;
use crate::consts::half;
use crate::consts::neg_realmax;
use crate::consts::realmax;
use crate::consts::two;
use crate::consts::zero;
use crate::consts::FTARGET_ACHIEVED;
use crate::consts::INFO_DFT;
use crate::consts::MAXFUN_REACHED;
use crate::consts::NAN_INF_F;
use crate::consts::NAN_INF_X;
use crate::float::arith::magnitude_of;
use crate::float::convert::count_of;
use crate::float::order::at_most;
use crate::float::order::below;
use crate::float::order::lemma_clamp;
use crate::float::order::max_of;
use crate::float::order::min_of;
use crate::float::F64;
use crate::util::interval::lemma_grid_inside;
use crate::util::interval::lemma_peak_inside;
use crate::util::interval::measured;
use crate::util::interval::peak_near;
use crate::vector::all_finite;
use crate::vector::any_nan;
use crate::vector::has_nan;
use crate::vector::is_all_finite;
use crate::vector::sum;
use crate::vector::total;
use crate::vector::zeros;

verus! {

/// A coordinate without NaN, which becomes zero, and without infinities, which become the
/// nearest finite numbers.
pub open spec fn moderated_x(v: F64) -> F64 {
    max_of(
        neg_realmax(),
        min_of(
            realmax(),
            if v.nan() {
                zero()
            } else {
                v
            },
        ),
    )
}

/// An objective value with NaN replaced by the ceiling, and brought between the least finite
/// number and the ceiling.
pub open spec fn moderated_f(f: F64) -> F64 {
    max_of(
        neg_realmax(),
        min_of(
            funcmax(),
            if f.nan() {
                funcmax()
            } else {
                f
            },
        ),
    )
}

/// The point with every coordinate moderated.
pub open spec fn moderated(x: Seq<F64>) -> Seq<F64> {
    Seq::new(x.len(), |i: int| moderated_x(x[i]))
}

/// The value that the method uses for the point `x`, where the objective answers `raw`: the
/// moderated answer, or NaN, which the sum of the coordinates is, where the point has one.
pub open spec fn value_at(x: Seq<F64>, raw: F64) -> F64 {
    if any_nan(x) {
        total(x)
    } else {
        moderated_f(raw)
    }
}

/// `raw` is a possible answer of the objective at `p`.
pub open spec fn answers<F: FnMut(&[F64]) -> F64>(f: F, p: Seq<F64>, raw: F64) -> bool {
    exists|s: &[F64]| s@ == p && #[trigger] call_ensures(f, (s,), raw)
}

/// The objective can be evaluated at every finite point between the bounds.  Nothing is known of
/// it elsewhere: a function that asks for no more than this evaluates it nowhere else.
pub open spec fn evaluable<F: FnMut(&[F64]) -> F64>(f: F, lo: Seq<F64>, hi: Seq<F64>) -> bool {
    forall|s: &[F64]|
        in_box(s@, lo, hi) && all_finite(s@) ==> #[trigger] call_requires(f, (s,))
}

/// The exit code after an evaluation; the last test that applies decides.
pub open spec fn exit_code(maxfun: usize, nf: usize, f: F64, ftarget: F64, x: Seq<F64>) -> i32 {
    if nf >= maxfun {
        MAXFUN_REACHED
    } else if f <= ftarget {
        FTARGET_ACHIEVED
    } else if f.nan() || (f.inf() && !f.sign()) {
        NAN_INF_F
    } else if !all_finite(x) {
        NAN_INF_X
    } else {
        INFO_DFT
    }
}

/// One coordinate of the point reached from `base` by `step`: brought between the bounds, and
/// exactly on a bound where the step reaches the corresponding step bound.
pub open spec fn placed1(base: F64, step: F64, xl: F64, xu: F64, sl: F64, su: F64) -> F64 {
    let s = max_of(sl, min_of(su, step));
    if s >= su {
        xu
    } else if s <= sl {
        xl
    } else {
        max_of(xl, min_of(xu, base + s))
    }
}

/// The point reached from `base` by `step` inside the bounds.
pub open spec fn placed(
    base: Seq<F64>,
    step: Seq<F64>,
    xl: Seq<F64>,
    xu: Seq<F64>,
    sl: Seq<F64>,
    su: Seq<F64>,
) -> Seq<F64> {
    Seq::new(base.len(), |i: int| placed1(base[i], step[i], xl[i], xu[i], sl[i], su[i]))
}

/// Every coordinate lies between its bounds.
pub open spec fn in_box(x: Seq<F64>, lo: Seq<F64>, hi: Seq<F64>) -> bool {
    &&& x.len() == lo.len()
    &&& x.len() == hi.len()
    &&& forall|i: int| 0 <= i < x.len() ==> (#[trigger] x[i]).within(lo[i], hi[i])
}

/// Bounds without NaN, of equal length and in order.
pub open spec fn ordered_bounds(lo: Seq<F64>, hi: Seq<F64>) -> bool {
    &&& lo.len() == hi.len()
    &&& forall|i: int| 0 <= i < lo.len() ==> #[trigger] lo[i] <= hi[i]
}

/// Entry `i` of the grid of `n` points from `start` to `stop`.
pub open spec fn grid_point(start: F64, stop: F64, n: nat, i: int) -> F64 {
    let nm = (n - 1) as nat;
    if i == nm {
        stop
    } else if i == 0 {
        start
    } else if start <= stop && stop <= start {
        stop
    } else if magnitude_of(start) <= magnitude_of(stop) && magnitude_of(stop) <= magnitude_of(start) {
        if nm % 2 == 0 && i == nm / 2 {
            zero()
        } else {
            (stop / count_of(nm)) * (two() * count_of(i as nat) - count_of(nm))
        }
    } else {
        start + ((stop - start) / count_of(nm)) * count_of(i as nat)
    }
}

/// The grid of `n` points from `start` to `stop`.
pub open spec fn grid(start: F64, stop: F64, n: nat) -> Seq<F64> {
    Seq::new(n, |i: int| grid_point(start, stop, n, i))
}

/// The first position of the largest entry that is not NaN among the first `k`.
pub open spec fn first_real_max(f: Seq<F64>, k: nat) -> Option<int>
    decreases k,
{
    if k == 0 {
        None
    } else {
        match first_real_max(f, (k - 1) as nat) {
            None => if f[k - 1].nan() {
                None
            } else {
                Some(k - 1)
            },
            Some(b) => if !f[k - 1].nan() && f[k - 1] > f[b] {
                Some(k - 1)
            } else {
                Some(b)
            },
        }
    }
}

/// The place of the peak of the parabola through entry `k` and its neighbours, relative to entry
/// `k`, in steps of the grid.
pub open spec fn peak_step(f: Seq<F64>, k: int) -> F64 {
    if magnitude_of(f[k - 1] - f[k + 1]) > zero() {
        half() * ((f[k + 1] - f[k - 1]) / (f[k] + f[k] - f[k - 1] - f[k + 1]))
    } else {
        zero()
    }
}

/// The maximizer on the interval from `lb` to `ub`, of which `f` holds the values on the grid
/// `x`: the end of the interval where the grid maximum lies there, and otherwise the peak of
/// the parabola through the grid maximum and its neighbours.
pub open spec fn peak(lb: F64, ub: F64, x: Seq<F64>, f: Seq<F64>) -> F64 {
    if ub <= lb {
        lb
    } else {
        match first_real_max(f, f.len()) {
            None => lb,
            Some(k) => if k == 0 {
                lb
            } else if k == f.len() - 1 {
                ub
            } else {
                let step = peak_step(f, k);
                if step.finite() && magnitude_of(step) > zero() {
                    lb + (ub - lb) * (count_of(k as nat) + step) / count_of((f.len() - 1) as nat)
                } else {
                    x[k]
                }
            },
        }
    }
}

/// One coordinate with NaN replaced by zero and infinities by the nearest finite numbers.
pub fn moderatex1(v: F64) -> (r: F64)
    ensures
        r == moderated_x(v),
{
    let w: F64 = if v.is_nan() {
        zero()
    } else {
        v
    };
    neg_realmax().max(realmax().min(w))
}

/// Writes the moderated point into `y`.
pub fn moderatex_into(x: &[F64], y: &mut Vec<F64>)
    requires
        old(y)@.len() == x@.len(),
    ensures
        final(y)@ == moderated(x@),
{
    for i in 0..x.len()
        invariant
            y@.len() == x@.len(),
            forall|j: int| 0 <= j < i ==> y@[j] == moderated_x(x@[j]),
    {
        y[i] = moderatex1(x[i]);
    }
    assert(y@ =~= moderated(x@));
}

/// The moderated point.
pub fn moderatex(x: &[F64]) -> (y: Vec<F64>)
    ensures
        y@ == moderated(x@),
{
    let mut y: Vec<F64> = zeros(x.len());
    moderatex_into(x, &mut y);
    y
}

/// An objective value with NaN replaced by the ceiling, brought between the least finite number
/// and the ceiling.
pub fn moderatef(f: F64) -> (r: F64)
    ensures
        r == moderated_f(f),
{
    let y: F64 = if f.is_nan() {
        funcmax()
    } else {
        f
    };
    neg_realmax().max(funcmax().min(y))
}

/// Evaluates the objective at the moderated point, and nowhere else, and moderates the answer; a
/// point with a NaN coordinate is not evaluated.
pub fn evaluate<F: FnMut(&[F64]) -> F64>(calfun: &mut F, x: &[F64], xmod: &mut Vec<F64>) -> (r: F64)
    requires
        !any_nan(x@) ==> forall|s: &[F64]|
            s@ == moderated(x@) ==> #[trigger] call_requires(*old(calfun), (s,)),
        old(xmod)@.len() == x@.len(),
    ensures
        *final(calfun) == *old(calfun),
        final(xmod)@.len() == x@.len(),
        any_nan(x@) ==> r == total(x@),
        !any_nan(x@) ==> exists|raw: F64| #[trigger]
            answers(*old(calfun), moderated(x@), raw) && r == moderated_f(raw),
{
    if has_nan(x) {
        sum(x)
    } else {
        moderatex_into(x, xmod);
        let point: &[F64] = xmod.as_slice();
        let raw: F64 = calfun(point);
        assert(answers(*old(calfun), moderated(x@), raw)) by {
            assert(point@ == moderated(x@));
            assert(call_ensures(*old(calfun), (point,), raw));
        }
        moderatef(raw)
    }
}

/// The exit code after an evaluation; the budget beats the target, which beats a bad value,
/// which beats a bad point.
pub fn checkexit(maxfun: usize, nf: usize, f: F64, ftarget: F64, x: &[F64]) -> (r: i32)
    ensures
        r == exit_code(maxfun, nf, f, ftarget, x@),
{
    let mut info: i32 = INFO_DFT;
    if !is_all_finite(x) {
        info = NAN_INF_X;
    }
    if f.is_nan() || (f.is_infinite() && f.is_sign_positive()) {
        info = NAN_INF_F;
    }
    if f.le(ftarget) {
        info = FTARGET_ACHIEVED;
    }
    if nf >= maxfun {
        info = MAXFUN_REACHED;
    }
    info
}

/// Writes the point reached from `xbase` by `step` inside the bounds into `x`.
pub fn xinbd_into(
    xbase: &[F64],
    step: &[F64],
    xl: &[F64],
    xu: &[F64],
    sl: &[F64],
    su: &[F64],
    x: &mut Vec<F64>,
)
    requires
        step@.len() == xbase@.len(),
        xl@.len() == xbase@.len(),
        xu@.len() == xbase@.len(),
        sl@.len() == xbase@.len(),
        su@.len() == xbase@.len(),
        old(x)@.len() == xbase@.len(),
    ensures
        final(x)@ == placed(xbase@, step@, xl@, xu@, sl@, su@),
{
    for i in 0..xbase.len()
        invariant
            step@.len() == xbase@.len(),
            xl@.len() == xbase@.len(),
            xu@.len() == xbase@.len(),
            sl@.len() == xbase@.len(),
            su@.len() == xbase@.len(),
            x@.len() == xbase@.len(),
            forall|j: int|
                0 <= j < i ==> x@[j] == placed1(xbase@[j], step@[j], xl@[j], xu@[j], sl@[j], su@[j]),
    {
        let s: F64 = sl[i].max(su[i].min(step[i]));
        x[i] = if s.ge(su[i]) {
            xu[i]
        } else if s.le(sl[i]) {
            xl[i]
        } else {
            xl[i].max(xu[i].min(xbase[i] + s))
        };
    }
    assert(x@ =~= placed(xbase@, step@, xl@, xu@, sl@, su@));
}

/// The point reached from `xbase` by `step` inside the bounds.
pub fn xinbd(
    xbase: &[F64],
    step: &[F64],
    xl: &[F64],
    xu: &[F64],
    sl: &[F64],
    su: &[F64],
) -> (x: Vec<F64>)
    requires
        step@.len() == xbase@.len(),
        xl@.len() == xbase@.len(),
        xu@.len() == xbase@.len(),
        sl@.len() == xbase@.len(),
        su@.len() == xbase@.len(),
    ensures
        x@ == placed(xbase@, step@, xl@, xu@, sl@, su@),
{
    let mut x: Vec<F64> = zeros(xbase.len());
    xinbd_into(xbase, step, xl, xu, sl, su, &mut x);
    x
}

/// A placed point lies in the box, whatever the base, the step and the step bounds hold.
pub proof fn lemma_placed_in_box(
    base: Seq<F64>,
    step: Seq<F64>,
    xl: Seq<F64>,
    xu: Seq<F64>,
    sl: Seq<F64>,
    su: Seq<F64>,
)
    requires
        ordered_bounds(xl, xu),
        base.len() == xl.len(),
    ensures
        in_box(placed(base, step, xl, xu, sl, su), xl, xu),
{
    let x = placed(base, step, xl, xu, sl, su);
    assert forall|i: int| 0 <= i < x.len() implies (#[trigger] x[i]).within(xl[i], xu[i]) by {
        assert(xl[i] <= xu[i]);
        lemma_clamp(xl[i], xu[i], base[i] + max_of(sl[i], min_of(su[i], step[i])));
        reveal(at_most);
    }
}

/// A point in a box has no NaN coordinate.
pub proof fn lemma_in_box_real(x: Seq<F64>, lo: Seq<F64>, hi: Seq<F64>)
    requires
        in_box(x, lo, hi),
    ensures
        !any_nan(x),
{
    assert forall|i: int| 0 <= i < x.len() implies !(#[trigger] x[i]).nan() by {
        assert(x[i].within(lo[i], hi[i]));
        reveal(at_most);
    }
}

/// Moderation leaves a finite coordinate as it is.
pub proof fn lemma_moderated_finite(v: F64)
    requires
        v.finite(),
    ensures
        moderated_x(v) == v,
{
    reveal(max_of);
    reveal(min_of);
    reveal(below);
}

/// A moderated value is finite and not above the ceiling; a value between the least finite
/// number and the ceiling is its own moderated value.
pub proof fn lemma_moderated_value(f: F64)
    ensures
        moderated_f(f).finite(),
        moderated_f(f) <= funcmax(),
        neg_realmax() <= moderated_f(f),
        f.nan() || f > funcmax() ==> moderated_f(f) == funcmax(),
        f.within(neg_realmax(), funcmax()) ==> moderated_f(f) == f,
{
    reveal(max_of);
    reveal(min_of);
    reveal(below);
    reveal(at_most);
}

/// Writes the grid of `x.len()` points from `xstart` to `xstop` into `x`.
pub fn linspace_into(xstart: F64, xstop: F64, n: usize, x: &mut Vec<F64>)
    requires
        old(x)@.len() == n,
    ensures
        final(x)@ == grid(xstart, xstop, n as nat),
{
    if n == 0 {
        assert(x@ =~= grid(xstart, xstop, n as nat));
        return;
    }
    let nm: usize = n - 1;
    let nmf: F64 = F64::from_usize(nm);
    let equal: bool = xstart.le(xstop) && xstop.le(xstart);
    let opposite: bool = xstart.abs().le(xstop.abs()) && xstop.abs().le(xstart.abs());
    for i in 0..n
        invariant
            x@.len() == n,
            n >= 1,
            nm == n - 1,
            nmf == count_of(nm as nat),
            equal == (xstart <= xstop && xstop <= xstart),
            opposite == (magnitude_of(xstart) <= magnitude_of(xstop) && magnitude_of(xstop)
                <= magnitude_of(xstart)),
            forall|j: int| 0 <= j < i ==> x@[j] == grid_point(xstart, xstop, n as nat, j),
    {
        x[i] = if i == nm {
            xstop
        } else if i == 0 {
            xstart
        } else if equal {
            xstop
        } else if opposite {
            if nm % 2 == 0 && i == nm / 2 {
                zero()
            } else {
                (xstop / nmf) * (two() * F64::from_usize(i) - nmf)
            }
        } else {
            xstart + ((xstop - xstart) / nmf) * F64::from_usize(i)
        };
    }
    assert(x@ =~= grid(xstart, xstop, n as nat));
}

/// The scan for the largest entry that is not NaN finds one above `v`, if there is one.
pub proof fn lemma_first_real_max_above(f: Seq<F64>, k: nat, v: F64, i: int)
    requires
        0 <= i < k,
        f[i] > v,
    ensures
        first_real_max(f, k) matches Some(b) && 0 <= b < k && f[b] > v,
    decreases k,
{
    reveal(below);
    if i < k - 1 {
        lemma_first_real_max_above(f, (k - 1) as nat, v, i);
    } else {
        lemma_first_real_max_range(f, (k - 1) as nat);
    }
}

/// The position that the scan finds is among those scanned, and its entry is not NaN.
pub(crate) proof fn lemma_first_real_max_range(f: Seq<F64>, k: nat)
    ensures
        first_real_max(f, k) matches Some(b) ==> 0 <= b < k && !f[b].nan(),
    decreases k,
{
    if k > 0 {
        lemma_first_real_max_range(f, (k - 1) as nat);
    }
}

/// An approximate maximizer of `fun(., args)` on the interval from `lb` to `ub`: a grid search
/// refined by one parabola.  `fun` is evaluated on the grid only, which lies in the interval
/// unless the interval is a few smallest numbers long: see [`interval::lemma_grid_inside`].
pub fn interval_max<F: Fn(F64, &[F64]) -> F64>(
    fun: F,
    lb: F64,
    ub: F64,
    args: &[F64],
    grid_size: usize,
    xgrid: &mut Vec<F64>,
    fgrid: &mut Vec<F64>,
) -> (r: F64)
    requires
        !(ub <= lb) ==> forall|k: int|
            0 <= k < grid_size ==> #[trigger] call_requires(
                fun,
                (grid_point(lb, ub, grid_size as nat, k), args),
            ),
        old(xgrid)@.len() == grid_size,
        old(fgrid)@.len() == grid_size,
    ensures
        final(xgrid)@.len() == grid_size,
        final(fgrid)@.len() == grid_size,
        ub <= lb ==> r == lb,
        !(ub <= lb) ==> {
            &&& forall|k: int|
                0 <= k < grid_size ==> #[trigger] call_ensures(
                    fun,
                    (grid_point(lb, ub, grid_size as nat, k), args),
                    final(fgrid)@[k],
                )
            &&& r == peak(lb, ub, grid(lb, ub, grid_size as nat), final(fgrid)@)
        },
        measured(lb, ub, grid_size as nat) && peak_near(final(fgrid)@) ==> r.within(lb, ub),
{
    if ub.le(lb) {
        proof {
            if measured(lb, ub, grid_size as nat) {
                lemma_grid_inside(lb, ub, grid_size as nat, 0);
                reveal(at_most);
            }
        }
        return lb;
    }
    linspace_into(lb, ub, grid_size, xgrid);
    let ghost xs: Seq<F64> = grid(lb, ub, grid_size as nat);
    for k in 0..grid_size
        invariant
            xgrid@.len() == grid_size,
            fgrid@.len() == grid_size,
            xgrid@ == xs,
            xs == grid(lb, ub, grid_size as nat),
            forall|k: int|
                0 <= k < grid_size ==> #[trigger] call_requires(
                    fun,
                    (grid_point(lb, ub, grid_size as nat, k), args),
                ),
            forall|j: int| 0 <= j < k ==> #[trigger] call_ensures(fun, (xs[j], args), fgrid@[j]),
    {
        assert(xs[k as int] == grid_point(lb, ub, grid_size as nat, k as int));
        let v: F64 = fun(xgrid[k], args);
        fgrid[k] = v;
    }
    assert forall|k: int| 0 <= k < grid_size implies #[trigger] call_ensures(
        fun,
        (grid_point(lb, ub, grid_size as nat, k), args),
        fgrid@[k],
    ) by {
        assert(xs[k] == grid_point(lb, ub, grid_size as nat, k));
        assert(call_ensures(fun, (xs[k], args), fgrid@[k]));
    }
    proof {
        if measured(lb, ub, grid_size as nat) && peak_near(fgrid@) {
            lemma_peak_inside(lb, ub, grid_size as nat, fgrid@);
        }
    }
    let mut kopt: usize = 0;
    let mut found: bool = false;
    for k in 0..grid_size
        invariant
            fgrid@.len() == grid_size,
            kopt < grid_size || !found,
            first_real_max(fgrid@, k as nat) == (if found {
                Some(kopt as int)
            } else {
                None
            }),
    {
        if !fgrid[k].is_nan() && (!found || fgrid[k].gt(fgrid[kopt])) {
            kopt = k;
            found = true;
        }
    }
    if !found {
        return lb;
    }
    if kopt == 0 {
        return lb;
    }
    if kopt == grid_size - 1 {
        return ub;
    }
    let fopt: F64 = fgrid[kopt];
    let fprev: F64 = fgrid[kopt - 1];
    let fnext: F64 = fgrid[kopt + 1];
    let mut step: F64 = zero();
    if (fprev - fnext).abs().gt(zero()) {
        step = half() * ((fnext - fprev) / (fopt + fopt - fprev - fnext));
    }
    if step.is_finite() && step.abs().gt(zero()) {
        lb + (ub - lb) * (F64::from_usize(kopt) + step) / F64::from_usize(grid_size - 1)
    } else {
        xgrid[kopt]
    }
}

/// A point inside finite bounds is finite.
pub proof fn lemma_in_box_finite(x: Seq<F64>, lo: Seq<F64>, hi: Seq<F64>)
    requires
        in_box(x, lo, hi),
        all_finite(lo),
        all_finite(hi),
    ensures
        all_finite(x),
{
    assert forall|i: int| 0 <= i < x.len() implies (#[trigger] x[i]).finite() by {
        assert(x[i].within(lo[i], hi[i]));
        assert(lo[i].finite() && hi[i].finite());
        reveal(at_most);
    }
}

/// Moderation leaves a point inside finite bounds as it is.
pub proof fn lemma_in_box_moderated(x: Seq<F64>, lo: Seq<F64>, hi: Seq<F64>)
    requires
        in_box(x, lo, hi),
        all_finite(lo),
        all_finite(hi),
    ensures
        moderated(x) == x,
{
    lemma_in_box_finite(x, lo, hi);
    assert forall|i: int| 0 <= i < x.len() implies moderated_x(x[i]) == #[trigger] x[i] by {
        assert(x[i].finite());
        lemma_moderated_finite(x[i]);
    }
    assert(moderated(x) =~= x);
}

/// Where a step from the base point leads.  It leads exactly to a bound where it reaches the
/// corresponding bound on steps, to the sum of the base point and the step where neither a bound on
/// steps nor a bound on the variables stands in the way, and to the nearer bound where the sum lies
/// beyond it.
pub proof fn lemma_placed_where(
    base: Seq<F64>,
    step: Seq<F64>,
    xl: Seq<F64>,
    xu: Seq<F64>,
    sl: Seq<F64>,
    su: Seq<F64>,
    i: int,
)
    requires
        base.len() == xl.len(),
        0 <= i < base.len(),
        sl[i] < su[i],
        xl[i] <= xu[i],
        !step[i].nan(),
        !(base[i] + step[i]).nan(),
    ensures
        ({
            let p = placed(base, step, xl, xu, sl, su)[i];
            let v = base[i] + step[i];
            &&& step[i] >= su[i] ==> p == xu[i]
            &&& step[i] <= sl[i] ==> p == xl[i]
            &&& sl[i] < step[i] && step[i] < su[i] ==> {
                &&& v.within(xl[i], xu[i]) ==> p.key() == v.key()
                &&& v < xl[i] ==> p.key() == xl[i].key()
                &&& v > xu[i] ==> p.key() == xu[i].key()
            }
        }),
{
    reveal(max_of);
    reveal(min_of);
    reveal(below);
    reveal(at_most);
}

} // verus!
