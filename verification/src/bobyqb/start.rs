//! The start of a run: the initial set is evaluated, and the first model is made.
use vstd::prelude::*;

use crate::bobyqb::course::asked;
use crate::bobyqb::course::begun;
use crate::bobyqb::course::filled;
use crate::bobyqb::course::first_model;
use crate::bobyqb::course::goes_on;
use crate::bobyqb::course::half_filled;
use crate::bobyqb::course::laid_out;
use crate::bobyqb::course::no_record;
use crate::bobyqb::course::point_at;
use crate::bobyqb::course::set_filled;
use crate::bobyqb::course::told;
use crate::bobyqb::course::value_from;
use crate::bobyqb::course::Asked;
use crate::bobyqb::course::Filling;
use crate::bobyqb::course::Oracle;
use crate::bobyqb::course::Settings;
use crate::bobyqb::course::Task;
use crate::bobyqb::progress::ask;
use crate::bobyqb::progress::good_bounds;
use crate::bobyqb::progress::serves;
use crate::bobyqb::progress::Progress;
use crate::bobyqb::progress::Work;
use crate::consts::minus_one;
use crate::consts::realmax;
use crate::consts::zero;
use crate::consts::INFO_DFT;
use crate::consts::MAXTR_REACHED;
use crate::consts::NAN_INF_MODEL;
use crate::float::F64;
use crate::initialize::inith;
use crate::initialize::initq;
use crate::initialize::order_points;
use crate::initialize::pair_points;
use crate::initialize::start_bounds;
use crate::initialize::start_points;
use crate::model::Model;
use crate::model::ModelView;
use crate::powalg::pairs_of;
use crate::powalg::setij_into;
use crate::util::checkexit;
use crate::util::lemma_placed_in_box;
use crate::util::xinbd_into;
use crate::vector::copy;
use crate::vector::fill;
use crate::vector::first_min;

verus! {

/// Evaluates the points of the set up to the first `upto`, until an exit test applies.
pub(crate) fn fill_points<F: FnMut(&[F64]) -> F64>(
    calfun: &mut F,
    set: &Settings,
    xl: &[F64],
    xu: &[F64],
    nf: usize,
    upto: usize,
    info_in: i32,
    m: &mut Model,
    x: &mut Vec<F64>,
    xmod: &mut Vec<F64>,
    log: &mut Ghost<Seq<Asked>>,
) -> (r: (usize, i32))
    requires
        old(m).fits(xl@.len(), old(m)@.xpt.len()),
        good_bounds(xl@, xu@),
        upto <= old(m)@.xpt.len(),
        nf == old(log)@.len(),
        nf <= old(m)@.xpt.len(),
        old(x)@.len() == xl@.len(),
        old(xmod)@.len() == xl@.len(),
        serves(*old(calfun), xl@, xu@, old(log)@),
    ensures
        *final(calfun) == *old(calfun),
        final(m).fits(xl@.len(), old(m)@.xpt.len()),
        final(m)@ == (ModelView { fval: final(m)@.fval, ..old(m)@ }),
        final(x)@.len() == xl@.len(),
        final(xmod)@.len() == xl@.len(),
        serves(*old(calfun), xl@, xu@, final(log)@),
        goes_on(old(log)@, final(log)@),
        r.0 == final(log)@.len(),
        r.0 <= old(m)@.xpt.len(),
        nf < upto && info_in == INFO_DFT ==> r.0 > nf,
        r.1 == INFO_DFT ==> r.0 >= upto,
        forall|o: Oracle| #[trigger]
            told(o, final(log)@) ==> {
                let t = Task { set: *set, xl: xl@, xu: xu@ };
                let before = Filling { fval: old(m)@.fval, log: old(log)@, info: info_in };
                (Filling { fval: final(m)@.fval, log: final(log)@, info: r.1 }) == filled(
                    t,
                    old(m)@,
                    before,
                    upto as nat,
                    o,
                )
            },
{
    let ghost t: Task = Task { set: *set, xl: xl@, xu: xu@ };
    let ghost m0: ModelView = m@;
    let ghost start: Filling = Filling { fval: m0.fval, log: log@, info: info_in };
    let ghost fun: F = *calfun;
    let ghost n: nat = xl@.len();
    let ghost npt: nat = m0.xpt.len();
    let mut k: usize = nf;
    let mut info: i32 = info_in;
    while k < upto && info == INFO_DFT
        invariant
            t == (Task { set: *set, xl: xl@, xu: xu@ }),
            start == (Filling { fval: m0.fval, log: old(log)@, info: info_in }),
            *calfun == fun,
            n == xl@.len(),
            m0 == old(m)@,
            npt == m0.xpt.len(),
            m.fits(n, npt),
            m@ == (ModelView { fval: m@.fval, ..m0 }),
            good_bounds(xl@, xu@),
            upto <= npt,
            k <= npt,
            nf <= k,
            k == nf ==> info == info_in,
            k == log@.len(),
            x@.len() == n,
            xmod@.len() == n,
            serves(fun, xl@, xu@, log@),
            goes_on(old(log)@, log@),
            forall|o: Oracle| #[trigger]
                told(o, log@) ==> filled(t, m0, start, upto as nat, o) == filled(
                    t,
                    m0,
                    Filling { fval: m@.fval, log: log@, info },
                    upto as nat,
                    o,
                ),
        decreases upto - k,
    {
        let ghost before: Filling = Filling { fval: m@.fval, log: log@, info };
        assert(m.xpt@[k as int].len() == n);
        xinbd_into(&m.xbase, m.xpt.col(k), xl, xu, &m.sl, &m.su, x);
        proof {
            lemma_placed_in_box(m@.xbase, m@.xpt[k as int], xl@, xu@, m@.sl, m@.su);
        }
        let f: F64 = ask(calfun, x, xmod, Ghost(xl@), Ghost(xu@), log);
        m.fval[k] = f;
        info = checkexit(set.maxfun, k + 1, f, set.ftarget, x);
        k = k + 1;
        proof {
            assert forall|o: Oracle| #[trigger] told(o, log@) implies filled(
                t,
                m0,
                start,
                upto as nat,
                o,
            ) == filled(
                t,
                m0,
                Filling { fval: m@.fval, log: log@, info },
                upto as nat,
                o,
            ) by {
                assert(told(o, before.log));
                assert(x@ == point_at(t, m0, m0.xpt[k - 1]));
                assert(f == value_from(before.log, x@, o));
                assert(log@ == asked(before.log, x@, o));
                assert(m@.fval == before.fval.update(k - 1, f));
            }
        }
    }
    (k, info)
}

/// The first position of the least one of the first `k` entries.
fn argmin_of_first(f: &[F64], k: usize) -> (r: usize)
    requires
        0 < k <= f@.len(),
    ensures
        r == first_min(f@, k as nat),
        r < k,
{
    let mut best: usize = 0;
    for i in 1..k
        invariant
            k <= f@.len(),
            best < i,
            best == first_min(f@, i as nat),
    {
        if f[i].lt(f[best]) {
            best = i;
        }
    }
    best
}

/// Lays out the set around the start, which is made to fit the bounds.
fn lay_out(rhobeg: F64, xl: &[F64], xu: &[F64], m: &mut Model, x: &mut Vec<F64>, t: Ghost<Task>)
    requires
        old(m).fits(xl@.len(), old(m)@.xpt.len()),
        xu@.len() == xl@.len(),
        old(x)@.len() == xl@.len(),
        t@.xl == xl@,
        t@.xu == xu@,
        t@.set.rhobeg == rhobeg,
    ensures
        final(m).fits(xl@.len(), old(m)@.xpt.len()),
        final(x)@.len() == xl@.len(),
        final(m)@ == laid_out(t@, old(m)@.xpt.len(), old(x)@),
{
    let ghost npt: nat = m@.xpt.len();
    m.bmat.fill(zero());
    m.zmat.fill(zero());
    m.hq.fill(zero());
    fill(&mut m.fval, realmax());
    fill(&mut m.gopt, zero());
    fill(&mut m.pq, zero());
    m.kopt = 0;
    start_bounds(rhobeg, xl, xu, x, &mut m.sl, &mut m.su);
    copy(&mut m.xbase, x);
    start_points(rhobeg, &m.sl, &m.su, &mut m.xpt);
    assert(m@.sl =~= laid_out(t@, npt, old(x)@).sl);
    assert(m@.su =~= laid_out(t@, npt, old(x)@).su);
    assert(m@.xbase =~= laid_out(t@, npt, old(x)@).xbase);
}

/// Makes the initial set, with its values, as far as the exit tests let it.
fn fill_set<F: FnMut(&[F64]) -> F64>(
    calfun: &mut F,
    set: &Settings,
    xl: &[F64],
    xu: &[F64],
    st: &mut Progress,
    w: &mut Work,
    log: &mut Ghost<Seq<Asked>>,
) -> (info: i32)
    requires
        old(st).fits(xl@.len(), old(st).m@.xpt.len()),
        old(w).fits(xl@.len(), old(st).m@.xpt.len()),
        good_bounds(xl@, xu@),
        old(log)@.len() == 0,
        serves(*old(calfun), xl@, xu@, old(log)@),
    ensures
        *final(calfun) == *old(calfun),
        final(st).fits(xl@.len(), old(st).m@.xpt.len()),
        final(w).fits(xl@.len(), old(st).m@.xpt.len()),
        final(w).kernel_calls() == old(w).kernel_calls(),
        final(w).ij@ == pairs_of(xl@.len(), old(st).m@.xpt.len()),
        final(st).nf == final(log)@.len(),
        0 < final(st).nf <= old(st).m@.xpt.len(),
        info == INFO_DFT ==> final(st).nf == old(st).m@.xpt.len(),
        serves(*old(calfun), xl@, xu@, final(log)@),
        forall|o: Oracle| #[trigger]
            told(o, final(log)@) ==> {
                let t = Task { set: *set, xl: xl@, xu: xu@ };
                let (m, i) = set_filled(t, old(st).m@.xpt.len(), old(st).x@, o);
                &&& final(st).m@ == m
                &&& (Filling { fval: m.fval, log: final(log)@, info }) == i
            },
{
    proof {
        reveal(Work::fits);
    }
    let ghost t: Task = Task { set: *set, xl: xl@, xu: xu@ };
    let ghost x0: Seq<F64> = st.x@;
    let n: usize = st.m.xpt.nrows();
    let npt: usize = st.m.xpt.ncols();
    lay_out(set.rhobeg, xl, xu, &mut st.m, &mut st.x, Ghost(t));
    let ghost m0: ModelView = st.m@;
    let limit: usize = if npt < 2 * n + 1 {
        npt
    } else {
        2 * n + 1
    };
    let ghost none: Seq<Asked> = log@;
    assert(none =~= Seq::<Asked>::empty());
    let (k1, info1): (usize, i32) = fill_points(
        calfun,
        set,
        xl,
        xu,
        0,
        limit,
        INFO_DFT,
        &mut st.m,
        &mut st.x,
        &mut w.xmod,
        log,
    );
    let ghost log1: Seq<Asked> = log@;
    order_points(&mut st.m.fval, &mut st.m.xpt);
    setij_into(n, npt, &mut w.ij);
    pair_points(&w.ij, &mut st.m.xpt);
    let ghost m1: ModelView = st.m@;
    let ghost i1: Filling = Filling { fval: m1.fval, log: log1, info: info1 };
    assert forall|o: Oracle| #[trigger] told(o, log1) implies half_filled(t, npt as nat, x0, o) == (
    m1, i1) by {}
    let (k2, info2): (usize, i32) = fill_points(
        calfun,
        set,
        xl,
        xu,
        k1,
        npt,
        info1,
        &mut st.m,
        &mut st.x,
        &mut w.xmod,
        log,
    );
    let best: usize = argmin_of_first(&st.m.fval, k2);
    st.m.kopt = best;
    st.nf = k2;
    proof {
        assert forall|o: Oracle| #[trigger] told(o, log@) implies {
            let (m, i) = set_filled(t, npt as nat, x0, o);
            &&& st.m@ == m
            &&& (Filling { fval: m.fval, log: log@, info: info2 }) == i
        } by {
            assert(told(o, log1));
        }
    }
    info2
}

/// Begins a run at `st.x`.
pub(crate) fn begin<F: FnMut(&[F64]) -> F64>(
    calfun: &mut F,
    set: &Settings,
    xl: &[F64],
    xu: &[F64],
    st: &mut Progress,
    w: &mut Work,
    log: &mut Ghost<Seq<Asked>>,
)
    requires
        old(st).fits(xl@.len(), old(st).m@.xpt.len()),
        old(w).fits(xl@.len(), old(st).m@.xpt.len()),
        good_bounds(xl@, xu@),
        old(log)@.len() == 0,
        set.maxfun > old(st).m@.xpt.len(),
        serves(*old(calfun), xl@, xu@, old(log)@),
    ensures
        *final(calfun) == *old(calfun),
        final(st).fits(xl@.len(), old(st).m@.xpt.len()),
        final(w).fits(xl@.len(), old(st).m@.xpt.len()),
        final(w).kernel_calls() == old(w).kernel_calls(),
        final(st).tracks(Task { set: *set, xl: xl@, xu: xu@ }, final(log)@),
        serves(*old(calfun), xl@, xu@, final(log)@),
        forall|o: Oracle| #[trigger]
            told(o, final(log)@) ==> {
                let t = Task { set: *set, xl: xl@, xu: xu@ };
                final(st).run(final(log)@) == begun(t, old(st).m@.xpt.len(), old(st).x@, o)
            },
{
    proof {
        reveal(Work::fits);
        reveal(begun);
    }
    let ghost t: Task = Task { set: *set, xl: xl@, xu: xu@ };
    let ghost x0: Seq<F64> = st.x@;
    let ghost n: nat = xl@.len();
    let ghost npt: nat = st.m@.xpt.len();
    let info: i32 = fill_set(calfun, set, xl, xu, st, w, log);
    let ghost m: ModelView = st.m@;
    let kopt: usize = st.m.kopt;
    assert(st.m.xpt@[kopt as int].len() == n);
    xinbd_into(&st.m.xbase, st.m.xpt.col(kopt), xl, xu, &st.m.sl, &st.m.su, &mut st.x);
    st.f = st.m.fval[kopt];
    proof {
        lemma_placed_in_box(st.m@.xbase, st.m@.xpt[kopt as int], xl@, xu@, st.m@.sl, st.m@.su);
    }
    if info == INFO_DFT {
        let _h: i32 = inith(&w.ij, &st.m.xpt, &mut st.m.bmat, &mut st.m.zmat);
        let _q: i32 = initq(
            &w.ij,
            &st.m.fval,
            &st.m.xpt,
            &mut st.m.gopt,
            &mut st.m.hq,
            &mut st.m.pq,
            &mut w.xnew,
        );
        assert(st.m@ == first_model(m));
    }
    fill(&mut st.d, zero());
    st.rho = set.rhobeg;
    st.delta = set.rhobeg;
    st.dnorm = zero();
    st.ratio = minus_one();
    st.ebound = zero();
    st.rescued = false;
    st.shortd = false;
    st.dnorm_rec = no_record();
    st.moderr_rec = no_record();
    st.knew = None;
    st.itest = 0;
    st.info = MAXTR_REACHED;
    st.ended = false;
    if info != INFO_DFT {
        st.info = info;
        st.ended = true;
    } else if !st.m.is_usable() {
        st.info = NAN_INF_MODEL;
        st.ended = true;
    }
    proof {
        assert forall|o: Oracle| #[trigger] told(o, log@) implies st.run(log@) == begun(
            t,
            npt,
            x0,
            o,
        ) by {
            let (ms, i) = set_filled(t, npt, x0, o);
            assert(ms == m);
        }
    }
}

} // verus!
