//! Lagrange interpolation at zero, as mathematics: the definition that the
//! executable code is held to.

use crate::field::{f_add, f_inv, f_mul, f_neg, f_sub};
use vstd::prelude::*;

verus! {

/// The sum `f(0) + f(1) + ... + f(n - 1)` in the field.
pub open spec fn field_sum(f: spec_fn(int) -> int, n: int) -> int
    decreases n,
{
    if n <= 0 {
        0
    } else {
        f_add(field_sum(f, n - 1), f(n - 1))
    }
}

/// What the point `xj` contributes to the basis polynomial of the point
/// `xi`, taken at zero: `(0 - xj) / (xi - xj)`.
pub open spec fn basis_factor(xi: int, xj: int) -> int {
    f_mul(f_neg(xj), f_inv(f_sub(xi, xj)))
}

/// The product of `basis_factor(xi, xs[j])` over the indices `j` below `upto`
/// other than `skip`.
pub open spec fn basis_product(xs: Seq<int>, xi: int, skip: int, upto: int) -> int
    decreases upto,
{
    if upto <= 0 {
        1
    } else if upto - 1 == skip {
        basis_product(xs, xi, skip, upto - 1)
    } else {
        f_mul(basis_product(xs, xi, skip, upto - 1), basis_factor(xi, xs[upto - 1]))
    }
}

/// The value at zero of the basis polynomial of the point `xs[i]`: the
/// product of `(0 - xs[j]) / (xs[i] - xs[j])` over all `j` other than `i`.
pub open spec fn basis_at_zero(xs: Seq<int>, i: int) -> int {
    basis_product(xs, xs[i], i, xs.len() as int)
}

/// The summand of the point `i` in the interpolation formula.
pub open spec fn lagrange_term(xs: Seq<int>, ys: Seq<int>, i: int) -> int {
    f_mul(ys[i], basis_at_zero(xs, i))
}

/// The summands of the interpolation formula, by index.
pub open spec fn lagrange_terms(xs: Seq<int>, ys: Seq<int>) -> spec_fn(int) -> int {
    |i: int| lagrange_term(xs, ys, i)
}

/// The value at zero of the polynomial of least degree through the points
/// `(xs[i], ys[i])`: the sum over `i` of `ys[i]` times the basis polynomial
/// of `xs[i]` at zero.
pub open spec fn interpolate_at_zero(xs: Seq<int>, ys: Seq<int>) -> int {
    field_sum(lagrange_terms(xs, ys), xs.len() as int)
}

} // verus!
