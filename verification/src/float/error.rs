//! How far the roundings of operations take their results from the exact ones, in exact
//! integers: the values are counted in smallest units, of which [`unity`] make a one.
use vstd::arithmetic::power2::lemma_pow2_pos;
use vstd::prelude::*;

use crate::float::arith::lemma_fields;
use crate::float::arith::product_of;
use crate::float::arith::quotient_of;
use crate::float::arith::root_of;
use crate::float::arith::sum_of;
use crate::float::convert::unity;
use crate::float::near::lemma_root_sharp;
use crate::float::near::lemma_round_sharp;
use crate::float::units;
use crate::float::F64;

verus! {

/// Two to the power 52.
pub const SHARP: u64 = 0x10_0000_0000_0000;

/// The size of an integer.
pub open spec fn size(a: int) -> int {
    if a < 0 {
        -a
    } else {
        a
    }
}

/// The size of a product.
pub proof fn lemma_size_product(a: int, b: int)
    ensures
        size(a * b) == size(a) * size(b),
{
    if a < 0 {
        assert((-a) * b == -(a * b)) by (nonlinear_arith);
        assert((-a) * (-b) == a * b) by (nonlinear_arith);
    } else {
        assert(a * (-b) == -(a * b)) by (nonlinear_arith);
    }
    assert(a >= 0 && b >= 0 ==> a * b >= 0) by (nonlinear_arith);
    assert(a < 0 && b >= 0 ==> a * b <= 0) by (nonlinear_arith);
    assert(a >= 0 && b < 0 ==> a * b <= 0) by (nonlinear_arith);
    assert(a < 0 && b < 0 ==> a * b >= 0) by (nonlinear_arith);
}

/// A sum is exact up to one part in two to the power 52.
pub proof fn lemma_sum_error(a: F64, b: F64)
    requires
        a.finite(),
        b.finite(),
        (a + b).finite(),
    ensures
        SHARP * size((a + b).value() - (a.value() + b.value())) <= size(a.value() + b.value()),
{
    reveal(sum_of);
    lemma_fields(0);
    let s = a.value() + b.value();
    if s > 0 {
        lemma_round_sharp(s as nat, 1);
    } else if s < 0 {
        lemma_round_sharp((-s) as nat, 1);
    }
}

/// A product is exact up to one part in two to the power 53 and half a smallest unit.
pub proof fn lemma_product_error(a: F64, b: F64)
    requires
        a.finite(),
        b.finite(),
        (a * b).finite(),
    ensures
        2 * SHARP * size((a * b).value() * unity() - a.value() * b.value()) <= size(
            a.value() * b.value(),
        ) + SHARP * unity(),
{
    reveal(product_of);
    lemma_pow2_pos(1074);
    let u = unity();
    let x = units(a.mag());
    let y = units(b.mag());
    lemma_round_sharp(x * y, u);
    lemma_size_product(a.value(), b.value());
    let m = units((a * b).mag()) as int;
    assert((-m) * u == -(m * u)) by (nonlinear_arith);
    assert((-x) * y == -(x * y)) by (nonlinear_arith);
    assert(x * (-y) == -(x * y)) by (nonlinear_arith);
    assert((-x) * (-y) == x * y) by (nonlinear_arith);
}

/// A quotient is exact up to one part in two to the power 53 and half a smallest unit.
pub proof fn lemma_quotient_error(a: F64, b: F64)
    requires
        a.finite(),
        b.finite(),
        !b.zero(),
        (a / b).finite(),
    ensures
        2 * SHARP * size((a / b).value() * b.value() - a.value() * unity()) <= size(a.value())
            * unity() + SHARP * size(b.value()),
{
    reveal(quotient_of);
    lemma_fields(b.mag());
    let u = unity() as int;
    let x = units(a.mag()) as int;
    let y = units(b.mag()) as int;
    lemma_round_sharp((x * u) as nat, y as nat);
    let m = units((a / b).mag()) as int;
    assert((-m) * y == -(m * y)) by (nonlinear_arith);
    assert((-m) * (-y) == m * y) by (nonlinear_arith);
    assert(m * (-y) == -(m * y)) by (nonlinear_arith);
    assert((-x) * u == -(x * u)) by (nonlinear_arith);
}

/// The square of a square root is exact up to one part in two to the power 50, if the number is
/// not very small.
pub proof fn lemma_root_error(a: F64)
    requires
        a.finite(),
        !a.sign(),
        a.value() >= 1,
    ensures
        root_of(a).finite(),
        !root_of(a).sign(),
        root_of(a).value() > 0,
        0x4_0000_0000_0000 * size(
            root_of(a).value() * root_of(a).value() - a.value() * unity(),
        ) <= a.value() * unity(),
{
    reveal(root_of);
    lemma_fields(0);
    lemma_root_sharp(a.mag());
}

} // verus!
