//! Facts of arithmetic on flat indices: splitting an index into a row and
//! a column, and the bounds that keep machine arithmetic from overflowing.

use vstd::arithmetic::div_mod::lemma_fundamental_div_mod;
use vstd::arithmetic::div_mod::lemma_fundamental_div_mod_converse;
use vstd::arithmetic::mul::lemma_mul_is_commutative;
use vstd::prelude::*;

verus! {

/// An offset of `x` whole steps of `d` and `y` more splits back into `x`
/// and `y`.
pub proof fn lemma_split(d: int, x: int, y: int)
    requires
        0 <= y < d,
    ensures
        (x * d + y) / d == x,
        (x * d + y) % d == y,
{
    lemma_fundamental_div_mod_converse(x * d + y, d, x, y);
}

/// A number below `b * b` splits into a quotient and a remainder below `b`.
pub proof fn lemma_digits(b: int, x: int)
    requires
        0 <= b,
        0 <= x < b * b,
    ensures
        0 < b,
        0 <= x / b < b,
        0 <= x % b < b,
        x == (x / b) * b + x % b,
{
    lemma_fundamental_div_mod(x, b);
    lemma_mul_is_commutative(b, x / b);
    let q = x / b;
    assert(0 <= q < b) by (nonlinear_arith)
        requires
            0 < b,
            0 <= x < b * b,
            x == q * b + x % b,
            0 <= x % b < b,
    ;
}

/// Two digits below `b` make a number below `b * b`.
pub proof fn lemma_two_digits(b: int, x: int, y: int)
    requires
        0 <= x < b,
        0 <= y < b,
    ensures
        0 <= x * b + y < b * b,
        0 <= x * b,
        x * b + b <= b * b,
{
    assert(0 <= x * b + y < b * b && 0 <= x * b && x * b + b <= b * b) by (nonlinear_arith)
        requires
            0 <= x < b,
            0 <= y < b,
    ;
}

/// A side whose square fits a machine word leaves room to count one past
/// it.
pub proof fn lemma_side_fits(side: nat, len: nat)
    requires
        side * side <= len <= usize::MAX,
    ensures
        side < usize::MAX,
{
    assert(side < usize::MAX) by (nonlinear_arith)
        requires
            side * side <= len <= usize::MAX,
            usize::MAX >= 0xffff_ffff,
    ;
}

} // verus!
