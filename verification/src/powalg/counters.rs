//! A count of the kernel evaluations, for measurements.
use vstd::arithmetic::div_mod::lemma_add_mod_noop;
use vstd::arithmetic::div_mod::lemma_mod_add_multiples_vanish;
use vstd::arithmetic::div_mod::lemma_mod_bound;
use vstd::arithmetic::div_mod::lemma_mod_twice;
use vstd::arithmetic::div_mod::lemma_small_mod;
use vstd::prelude::*;

verus! {

/// The number of kernel evaluations since the last [`reset`].
#[derive(Debug, Clone, Copy, PartialEq, Eq, Structural)]
pub struct KernelCount {
    /// The number, modulo the size of the index type.
    pub calls: usize,
}

/// The count after one more evaluation.
pub open spec fn bumped(c: KernelCount) -> KernelCount {
    KernelCount {
        calls: if c.calls == usize::MAX {
            0
        } else {
            (c.calls + 1) as usize
        },
    }
}

/// The number `calls` after `k` more evaluations.
pub open spec fn tallied(calls: usize, k: nat) -> usize {
    ((calls + k) % (usize::MAX + 1)) as usize
}

/// The total of three counts.
#[verifier::opaque]
pub open spec fn total_of(a: KernelCount, b: KernelCount, c: KernelCount) -> usize {
    ((a.calls + b.calls + c.calls) % (usize::MAX + 1)) as usize
}

/// Evaluations add up.
pub proof fn lemma_tallied(calls: usize, j: nat, k: nat)
    ensures
        tallied(calls, 0) == calls,
        tallied(tallied(calls, j), k) == tallied(calls, j + k),
{
    let m = usize::MAX + 1;
    lemma_small_mod(calls as nat, m as nat);
    lemma_mod_bound(calls + j, m);
    lemma_mod_bound(calls + j + k, m);
    lemma_add_mod_noop(calls + j, k as int, m);
    lemma_add_mod_noop((calls + j) % m, k as int, m);
    lemma_mod_twice(calls + j, m);
}

/// Three counts of zero are zero in total.
pub proof fn lemma_total_fresh(a: KernelCount, b: KernelCount, c: KernelCount)
    requires
        a.calls == 0,
        b.calls == 0,
        c.calls == 0,
    ensures
        total_of(a, b, c) == 0,
{
    reveal(total_of);
    lemma_small_mod(0, (usize::MAX + 1) as nat);
}

/// One more evaluation in one of three counts is one more in total.
pub proof fn lemma_total_bumped(a: KernelCount, b: KernelCount, c: KernelCount)
    ensures
        total_of(bumped(a), b, c) == tallied(total_of(a, b, c), 1),
        total_of(a, bumped(b), c) == tallied(total_of(a, b, c), 1),
        total_of(a, b, bumped(c)) == tallied(total_of(a, b, c), 1),
{
    reveal(total_of);
    let m = usize::MAX + 1;
    let s = a.calls + b.calls + c.calls;
    lemma_mod_bound(s, m);
    lemma_add_mod_noop(s, 1, m);
    lemma_add_mod_noop(s % m, 1, m);
    lemma_mod_twice(s, m);
    lemma_mod_add_multiples_vanish(s + 1 - m, m);
}

/// A count of zero.
pub fn fresh() -> (c: KernelCount)
    ensures
        c.calls == 0,
{
    KernelCount { calls: 0 }
}

/// Sets the count to zero.
pub fn reset(c: &mut KernelCount)
    ensures
        final(c).calls == 0,
{
    c.calls = 0;
}

/// The number of kernel evaluations since the last [`reset`].
pub fn calvlag_noadd_calls(c: &KernelCount) -> (r: usize)
    ensures
        r == c.calls,
{
    c.calls
}

/// Records one kernel evaluation.
pub fn bump(c: &mut KernelCount)
    ensures
        *final(c) == bumped(*old(c)),
{
    c.calls = if c.calls == usize::MAX {
        0
    } else {
        c.calls + 1
    };
}

} // verus!
