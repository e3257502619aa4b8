//! Why Lagrange's formula is right: sums in the field, the basis
//! polynomials at zero, and the theorem that interpolation through enough
//! points of a polynomial gives back its constant term.

use crate::field::{f_add, f_inv, f_mul, f_neg, f_sub, is_canonical, reduce};
use crate::field_lemmas::{
    lemma_add_interchange, lemma_inverse_exists, lemma_mul_associative, lemma_mul_distributes_add,
    lemma_mul_distributes_sub, lemma_mul_canonical, lemma_mul_neg, lemma_mul_reduce,
    lemma_mul_zero_one, lemma_neg_neg, lemma_neg_plus, lemma_neg_sub, lemma_reduce_canonical,
    lemma_reduce_of_canonical, lemma_sub_neg, lemma_sub_nonzero, lemma_sub_of_subs,
};
use crate::lagrange::{
    basis_at_zero, basis_factor, basis_product, field_sum, interpolate_at_zero, lagrange_terms,
};
use crate::polynomial::{
    lemma_poly_eval_canonical, lemma_quotient, lemma_quotient_len, poly_eval, quotient,
};
use vstd::prelude::*;

verus! {

/// Sums of functions that agree below `n` are the same.
pub proof fn lemma_sum_congruence(f: spec_fn(int) -> int, g: spec_fn(int) -> int, n: int)
    requires
        forall|i: int| 0 <= i < n ==> #[trigger] f(i) == g(i),
    ensures
        field_sum(f, n) == field_sum(g, n),
    decreases n,
{
    if n > 0 {
        lemma_sum_congruence(f, g, n - 1);
        assert(f(n - 1) == g(n - 1));
    }
}

/// A sum of sums is the sum of the two sums.
pub proof fn lemma_sum_add(
    f: spec_fn(int) -> int,
    g: spec_fn(int) -> int,
    h: spec_fn(int) -> int,
    n: int,
)
    requires
        forall|i: int| 0 <= i < n ==> #[trigger] h(i) == f_add(f(i), g(i)),
    ensures
        field_sum(h, n) == f_add(field_sum(f, n), field_sum(g, n)),
    decreases n,
{
    if n > 0 {
        lemma_sum_add(f, g, h, n - 1);
        assert(h(n - 1) == f_add(f(n - 1), g(n - 1)));
        lemma_add_interchange(field_sum(f, n - 1), field_sum(g, n - 1), f(n - 1), g(n - 1));
    } else {
        lemma_reduce_of_canonical(0);
    }
}

/// A common factor can be taken out of a sum.
pub proof fn lemma_sum_scale(c: int, f: spec_fn(int) -> int, g: spec_fn(int) -> int, n: int)
    requires
        forall|i: int| 0 <= i < n ==> #[trigger] g(i) == f_mul(c, f(i)),
    ensures
        field_sum(g, n) == f_mul(c, field_sum(f, n)),
    decreases n,
{
    if n > 0 {
        lemma_sum_scale(c, f, g, n - 1);
        assert(g(n - 1) == f_mul(c, f(n - 1)));
        lemma_mul_distributes_add(c, field_sum(f, n - 1), f(n - 1));
    } else {
        lemma_mul_zero_one(c);
    }
}

/// A sum in the field is a canonical representative.
pub proof fn lemma_sum_canonical(f: spec_fn(int) -> int, n: int)
    ensures
        is_canonical(field_sum(f, n)),
{
    if n > 0 {
        lemma_reduce_canonical(field_sum(f, n - 1) + f(n - 1));
    }
}

/// The product of basis factors depends on the points below `upto` alone.
pub proof fn lemma_basis_prefix(xs: Seq<int>, zs: Seq<int>, xi: int, skip: int, upto: int)
    requires
        forall|j: int| 0 <= j < upto && j != skip ==> xs[j] == zs[j],
    ensures
        basis_product(xs, xi, skip, upto) == basis_product(zs, xi, skip, upto),
    decreases upto,
{
    if upto > 0 {
        lemma_basis_prefix(xs, zs, xi, skip, upto - 1);
    }
}

/// An index at or above `upto` leaves nothing out of the product.
pub proof fn lemma_basis_skip_above(xs: Seq<int>, xi: int, skip: int, other: int, upto: int)
    requires
        skip >= upto,
        other >= upto,
    ensures
        basis_product(xs, xi, skip, upto) == basis_product(xs, xi, other, upto),
    decreases upto,
{
    if upto > 0 {
        lemma_basis_skip_above(xs, xi, skip, other, upto - 1);
    }
}

/// A factor of a product can be moved to the front.
pub proof fn lemma_mul_swap(a: int, b: int, c: int)
    ensures
        f_mul(a, f_mul(b, c)) == f_mul(b, f_mul(a, c)),
{
    lemma_mul_associative(a, b, c);
    lemma_mul_associative(b, a, c);
}

/// The denominator cancels out of a basis factor.
pub proof fn lemma_factor_cancels(xi: int, xj: int)
    requires
        is_canonical(xi),
        is_canonical(xj),
        xi != xj,
    ensures
        f_mul(f_sub(xi, xj), basis_factor(xi, xj)) == f_neg(xj),
{
    let d = f_sub(xi, xj);
    lemma_sub_nonzero(xi, xj);
    lemma_inverse_exists(d);
    lemma_mul_swap(d, f_neg(xj), f_inv(d));
    lemma_reduce_canonical(-xj);
}

/// A factor that is not zero can be cancelled from `d * s == d`.
pub proof fn lemma_cancel_to_one(d: int, s: int)
    requires
        reduce(d) != 0,
        is_canonical(s),
        f_mul(d, s) == reduce(d),
    ensures
        s == 1,
{
    lemma_inverse_exists(d);
    lemma_mul_associative(f_inv(d), d, s);
    lemma_mul_reduce(f_inv(d), d);
    lemma_reduce_of_canonical(s);
}

/// The weights of the first `m` points: for each index, the product of its
/// basis factors against the other points below `m`.
pub open spec fn weights(xs: Seq<int>, m: int) -> spec_fn(int) -> int {
    |i: int| basis_product(xs, xs[i], i, m)
}

/// The first `m` points are canonical representatives that differ from one
/// another.
pub open spec fn distinct_below(xs: Seq<int>, m: int) -> bool {
    &&& 0 <= m <= xs.len()
    &&& forall|i: int| 0 <= i < m ==> is_canonical(#[trigger] xs[i])
    &&& forall|i: int, j: int| 0 <= i < j < m ==> #[trigger] xs[i] != #[trigger] xs[j]
}

/// How the weight `w` of a point `xi` among the points up to `a` and `b`
/// relates to its weights among the points up to `a` alone and up to `b`
/// alone: `(a - b) * w == -b * wa + a * wb`. Here `u` is the weight among
/// the points before `a` and `b`, and `fa` and `fb` are the basis factors
/// against `a` and `b`.
proof fn lemma_weight_between(u: int, fa: int, fb: int, xi: int, a: int, b: int)
    requires
        f_mul(f_sub(xi, a), fa) == f_neg(a),
        f_mul(f_sub(xi, b), fb) == f_neg(b),
    ensures
        f_mul(f_sub(a, b), f_mul(f_mul(u, fa), fb)) == f_add(
            f_mul(f_neg(b), f_mul(u, fa)),
            f_mul(a, f_mul(u, fb)),
        ),
{
    let wa = f_mul(u, fa);
    let wb = f_mul(u, fb);
    let w = f_mul(wa, fb);
    let da = f_sub(xi, a);
    let db = f_sub(xi, b);
    assert(f_mul(db, w) == f_mul(f_neg(b), wa)) by {
        lemma_mul_swap(db, wa, fb);
    }
    assert(w == f_mul(wb, fa)) by {
        lemma_mul_associative(u, fa, fb);
        lemma_mul_associative(u, fb, fa);
    }
    assert(f_mul(da, w) == f_neg(f_mul(a, wb))) by {
        lemma_mul_swap(da, wb, fa);
        lemma_mul_neg(wb, a);
    }
    assert(f_mul(f_sub(db, da), w) == f_sub(f_mul(db, w), f_mul(da, w))) by {
        lemma_mul_distributes_sub(w, db, da);
    }
    assert(f_sub(a, b) == f_sub(db, da)) by {
        lemma_sub_of_subs(xi, a, b);
    }
    assert(f_sub(f_mul(f_neg(b), wa), f_neg(f_mul(a, wb))) == f_add(
        f_mul(f_neg(b), wa),
        f_mul(a, wb),
    )) by {
        lemma_sub_neg(f_mul(f_neg(b), wa), f_mul(a, wb));
    }
}

/// The weight of the point `a` itself: `(a - b) * (u * fab) == -b * u`.
proof fn lemma_weight_at_first(u: int, fab: int, a: int, b: int)
    requires
        f_mul(f_sub(a, b), fab) == f_neg(b),
    ensures
        f_mul(f_sub(a, b), f_mul(u, fab)) == f_add(f_mul(f_neg(b), u), f_mul(a, 0)),
{
    lemma_mul_swap(f_sub(a, b), u, fab);
    lemma_mul_zero_one(a);
    lemma_mul_canonical(f_neg(b), u);
    lemma_reduce_of_canonical(f_mul(f_neg(b), u));
}

/// The weight of the point `b` itself: `(a - b) * (u * fba) == a * u`.
proof fn lemma_weight_at_second(u: int, fba: int, a: int, b: int)
    requires
        f_mul(f_sub(b, a), fba) == f_neg(a),
    ensures
        f_mul(f_sub(a, b), f_mul(u, fba)) == f_add(f_mul(f_neg(b), 0), f_mul(a, u)),
{
    let d = f_sub(b, a);
    assert(f_mul(f_sub(a, b), fba) == reduce(a)) by {
        lemma_neg_sub(a, b);
        lemma_mul_neg(d, fba);
        lemma_neg_neg(a);
    }
    lemma_mul_swap(f_sub(a, b), u, fba);
    lemma_mul_reduce(u, a);
    lemma_mul_zero_one(f_neg(b));
    lemma_mul_canonical(a, u);
    lemma_reduce_of_canonical(f_mul(a, u));
}

/// The weight of the point `i` among the first `m - 1` points, and zero
/// for the last of the first `m` points.
pub open spec fn weight_without_last(xs: Seq<int>, m: int, i: int) -> int {
    if i < m - 1 {
        basis_product(xs, xs[i], i, m - 1)
    } else {
        0
    }
}

/// The first `m` points with the last but one taken out: the last point
/// takes its place.
pub open spec fn without_last_but_one(xs: Seq<int>, m: int) -> Seq<int> {
    xs.update(m - 2, xs[m - 1])
}

/// The weight of the point `i` among the first `m` points without the last
/// but one, and zero for the last but one itself.
pub open spec fn weight_without_last_but_one(xs: Seq<int>, m: int, i: int) -> int {
    let zs = without_last_but_one(xs, m);
    if i < m - 2 {
        basis_product(zs, zs[i], i, m - 1)
    } else if i == m - 2 {
        0
    } else {
        basis_product(zs, zs[m - 2], m - 2, m - 1)
    }
}

/// With `a` and `b` the last two of the first `m` points, the weight `w` of
/// every point satisfies `(a - b) * w == -b * wa + a * wb`, where `wa` is
/// its weight when `b` is left out and `wb` its weight when `a` is left out.
proof fn lemma_weight_split(xs: Seq<int>, m: int, i: int)
    requires
        m >= 2,
        distinct_below(xs, m),
        0 <= i < m,
    ensures
        f_mul(f_sub(xs[m - 2], xs[m - 1]), basis_product(xs, xs[i], i, m)) == f_add(
            f_mul(f_neg(xs[m - 1]), weight_without_last(xs, m, i)),
            f_mul(xs[m - 2], weight_without_last_but_one(xs, m, i)),
        ),
{
    let a = xs[m - 2];
    let b = xs[m - 1];
    let zs = without_last_but_one(xs, m);
    let xi = xs[i];
    assert(a != b);
    if i < m - 2 {
        let u = basis_product(xs, xi, i, m - 2);
        let fa = basis_factor(xi, a);
        let fb = basis_factor(xi, b);
        assert(basis_product(xs, xi, i, m - 1) == f_mul(u, fa));
        assert(basis_product(xs, xi, i, m) == f_mul(f_mul(u, fa), fb));
        assert(zs[i] == xi);
        lemma_basis_prefix(xs, zs, xi, i, m - 2);
        assert(basis_product(zs, xi, i, m - 1) == f_mul(u, fb));
        assert(xi != a && xi != b);
        lemma_factor_cancels(xi, a);
        lemma_factor_cancels(xi, b);
        lemma_weight_between(u, fa, fb, xi, a, b);
    } else if i == m - 2 {
        let u = basis_product(xs, a, m - 2, m - 2);
        let fab = basis_factor(a, b);
        assert(basis_product(xs, a, m - 2, m - 1) == u);
        assert(basis_product(xs, a, m - 2, m) == f_mul(u, fab));
        lemma_factor_cancels(a, b);
        lemma_weight_at_first(u, fab, a, b);
    } else {
        let u = basis_product(xs, b, m - 1, m - 2);
        let fba = basis_factor(b, a);
        assert(basis_product(xs, b, m - 1, m - 1) == f_mul(u, fba));
        assert(basis_product(xs, b, m - 1, m) == f_mul(u, fba));
        assert(zs[m - 2] == b);
        assert(basis_product(zs, b, m - 2, m - 1) == basis_product(zs, b, m - 2, m - 2));
        lemma_basis_prefix(xs, zs, b, m - 2, m - 2);
        lemma_basis_skip_above(xs, b, m - 2, m - 1, m - 2);
        lemma_factor_cancels(b, a);
        lemma_weight_at_second(u, fba, a, b);
    }
}

/// The weights of one point or more add up to one.
pub proof fn lemma_partition_of_unity(xs: Seq<int>, m: int)
    requires
        m >= 1,
        distinct_below(xs, m),
    ensures
        field_sum(weights(xs, m), m) == 1,
    decreases m,
{
    let w = weights(xs, m);
    if m == 1 {
        assert(basis_product(xs, xs[0], 0, 0) == 1);
        assert(w(0) == 1);
        assert(field_sum(w, 0) == 0);
        assert(field_sum(w, 1) == f_add(field_sum(w, 0), w(0)));
        lemma_reduce_of_canonical(1);
    } else {
        let a = xs[m - 2];
        let b = xs[m - 1];
        let d = f_sub(a, b);
        let zs = without_last_but_one(xs, m);
        let wa = weights(xs, m - 1);
        let wz = weights(zs, m - 1);
        lemma_partition_of_unity(xs, m - 1);
        assert(distinct_below(zs, m - 1));
        lemma_partition_of_unity(zs, m - 1);
        let a_fn = |i: int| weight_without_last(xs, m, i);
        let b_fn = |i: int| weight_without_last_but_one(xs, m, i);
        let lhs_fn = |i: int| f_mul(d, w(i));
        let na_fn = |i: int| f_mul(f_neg(b), a_fn(i));
        let ab_fn = |i: int| f_mul(a, b_fn(i));
        assert forall|i: int| 0 <= i < m implies #[trigger] lhs_fn(i) == f_add(
            na_fn(i),
            ab_fn(i),
        ) by {
            lemma_weight_split(xs, m, i);
        }
        lemma_sum_add(na_fn, ab_fn, lhs_fn, m);
        lemma_sum_scale(d, w, lhs_fn, m);
        lemma_sum_scale(f_neg(b), a_fn, na_fn, m);
        lemma_sum_scale(a, b_fn, ab_fn, m);
        assert(field_sum(a_fn, m) == 1) by {
            lemma_sum_congruence(a_fn, wa, m - 1);
            assert(a_fn(m - 1) == 0);
            assert(field_sum(a_fn, m) == f_add(field_sum(a_fn, m - 1), a_fn(m - 1)));
            lemma_reduce_of_canonical(1);
        }
        assert(field_sum(b_fn, m) == 1) by {
            lemma_sum_congruence(b_fn, wz, m - 2);
            assert(b_fn(m - 2) == 0);
            assert(b_fn(m - 1) == wz(m - 2));
            assert(field_sum(b_fn, m - 1) == f_add(field_sum(b_fn, m - 2), b_fn(m - 2)));
            assert(field_sum(b_fn, m) == f_add(field_sum(b_fn, m - 1), b_fn(m - 1)));
            assert(field_sum(wz, m - 1) == f_add(field_sum(wz, m - 2), wz(m - 2)));
            lemma_sum_canonical(b_fn, m - 2);
            lemma_reduce_of_canonical(field_sum(b_fn, m - 2));
        }
        assert(f_mul(d, field_sum(w, m)) == reduce(d)) by {
            lemma_neg_plus(a, b);
        }
        lemma_sub_nonzero(a, b);
        lemma_sum_canonical(w, m);
        lemma_cancel_to_one(d, field_sum(w, m));
    }
}

/// The summands of the interpolation formula for the first `m` points,
/// where the y-coordinates are the values of the polynomial `coeffs`.
pub open spec fn eval_terms(coeffs: Seq<int>, xs: Seq<int>, m: int) -> spec_fn(int) -> int {
    |i: int| f_mul(poly_eval(coeffs, xs[i]), basis_product(xs, xs[i], i, m))
}

/// The summand of the point `i` for the quotient by `x - a`, where `a` is
/// the last of the first `m` points; zero for that last point itself.
pub open spec fn quotient_term(coeffs: Seq<int>, xs: Seq<int>, m: int, i: int) -> int {
    if i < m - 1 {
        eval_terms(quotient(coeffs, xs[m - 1]), xs, m - 1)(i)
    } else {
        0
    }
}

/// Four factors regrouped: `(d * q) * (w * f) == (d * f) * (q * w)`.
proof fn lemma_mul_regroup(d: int, q: int, w: int, f: int)
    ensures
        f_mul(f_mul(d, q), f_mul(w, f)) == f_mul(f_mul(d, f), f_mul(q, w)),
{
    lemma_mul_associative(d, q, f_mul(w, f));
    lemma_mul_associative(q, w, f);
    lemma_mul_associative(d, f, f_mul(q, w));
}

/// With `a` the last of the first `m` points, `c(a)` the value there and `q`
/// the quotient by `x - a`, the summand of every point splits into
/// `c(a) * w` and `-a` times the summand of `q` among the points before `a`.
proof fn lemma_eval_term_split(coeffs: Seq<int>, xs: Seq<int>, m: int, i: int)
    requires
        m >= 1,
        distinct_below(xs, m),
        0 <= i < m,
    ensures
        eval_terms(coeffs, xs, m)(i) == f_add(
            f_mul(poly_eval(coeffs, xs[m - 1]), weights(xs, m)(i)),
            f_mul(f_neg(xs[m - 1]), quotient_term(coeffs, xs, m, i)),
        ),
{
    let a = xs[m - 1];
    let xi = xs[i];
    let q = quotient(coeffs, a);
    let ca = poly_eval(coeffs, a);
    let qx = poly_eval(q, xi);
    let d = f_sub(xi, a);
    let w = basis_product(xs, xi, i, m);
    lemma_quotient(coeffs, a, xi);
    lemma_mul_distributes_add(w, ca, f_mul(d, qx));
    if i < m - 1 {
        let w1 = basis_product(xs, xi, i, m - 1);
        let f = basis_factor(xi, a);
        assert(w == f_mul(w1, f));
        assert(xi != a);
        lemma_factor_cancels(xi, a);
        lemma_mul_regroup(d, qx, w1, f);
    } else {
        lemma_mul_zero_one(f_neg(a));
    }
}

/// Lagrange's formula over `m` points of a polynomial with at most `m`
/// coefficients gives the value of the polynomial at zero.
pub proof fn lemma_interpolation_exact(coeffs: Seq<int>, xs: Seq<int>, m: int)
    requires
        distinct_below(xs, m),
        coeffs.len() <= m,
    ensures
        field_sum(eval_terms(coeffs, xs, m), m) == poly_eval(coeffs, 0),
    decreases m,
{
    if m > 0 {
        let a = xs[m - 1];
        let q = quotient(coeffs, a);
        let ca = poly_eval(coeffs, a);
        let w = weights(xs, m);
        let e = eval_terms(coeffs, xs, m);
        let eq = eval_terms(q, xs, m - 1);
        lemma_quotient_len(coeffs, a);
        lemma_interpolation_exact(q, xs, m - 1);
        lemma_partition_of_unity(xs, m);
        let g_fn = |i: int| quotient_term(coeffs, xs, m, i);
        let cw_fn = |i: int| f_mul(ca, w(i));
        let ng_fn = |i: int| f_mul(f_neg(a), g_fn(i));
        assert forall|i: int| 0 <= i < m implies #[trigger] e(i) == f_add(cw_fn(i), ng_fn(i)) by {
            lemma_eval_term_split(coeffs, xs, m, i);
        }
        lemma_sum_add(cw_fn, ng_fn, e, m);
        lemma_sum_scale(ca, w, cw_fn, m);
        lemma_sum_scale(f_neg(a), g_fn, ng_fn, m);
        assert(field_sum(g_fn, m) == poly_eval(q, 0)) by {
            lemma_sum_congruence(g_fn, eq, m - 1);
            assert(g_fn(m - 1) == 0);
            assert(field_sum(g_fn, m) == f_add(field_sum(g_fn, m - 1), g_fn(m - 1)));
            lemma_poly_eval_canonical(q, 0);
            lemma_reduce_of_canonical(poly_eval(q, 0));
        }
        assert(f_mul(ca, 1) == ca) by {
            lemma_poly_eval_canonical(coeffs, a);
            lemma_reduce_of_canonical(ca);
        }
        lemma_quotient(coeffs, a, 0);
    }
}

/// Lagrange's formula through points of a polynomial: where there are at
/// least as many points as coefficients, at canonical x-coordinates that
/// differ from one another, the formula gives the polynomial's value at
/// zero.
pub proof fn lemma_interpolation_of_polynomial(coeffs: Seq<int>, xs: Seq<int>, ys: Seq<int>)
    requires
        coeffs.len() <= xs.len(),
        ys.len() == xs.len(),
        forall|i: int| 0 <= i < xs.len() ==> is_canonical(#[trigger] xs[i]),
        xs.no_duplicates(),
        forall|i: int| 0 <= i < xs.len() ==> #[trigger] ys[i] == poly_eval(coeffs, xs[i]),
    ensures
        interpolate_at_zero(xs, ys) == poly_eval(coeffs, 0),
{
    let n = xs.len() as int;
    assert(distinct_below(xs, n));
    lemma_interpolation_exact(coeffs, xs, n);
    assert forall|i: int| 0 <= i < n implies #[trigger] lagrange_terms(xs, ys)(i) == eval_terms(
        coeffs,
        xs,
        n,
    )(i) by {
        assert(ys[i] == poly_eval(coeffs, xs[i]));
    }
    lemma_sum_congruence(lagrange_terms(xs, ys), eval_terms(coeffs, xs, n), n);
}

/// Lagrange's formula is additive in the y-coordinates.
pub proof fn lemma_interpolation_additive(
    xs: Seq<int>,
    ys1: Seq<int>,
    ys2: Seq<int>,
    ys: Seq<int>,
)
    requires
        forall|i: int| 0 <= i < xs.len() ==> #[trigger] ys[i] == f_add(ys1[i], ys2[i]),
    ensures
        interpolate_at_zero(xs, ys) == f_add(
            interpolate_at_zero(xs, ys1),
            interpolate_at_zero(xs, ys2),
        ),
{
    let n = xs.len() as int;
    assert forall|i: int| 0 <= i < n implies #[trigger] lagrange_terms(xs, ys)(i) == f_add(
        lagrange_terms(xs, ys1)(i),
        lagrange_terms(xs, ys2)(i),
    ) by {
        assert(ys[i] == f_add(ys1[i], ys2[i]));
        lemma_mul_distributes_add(basis_at_zero(xs, i), ys1[i], ys2[i]);
    }
    lemma_sum_add(lagrange_terms(xs, ys1), lagrange_terms(xs, ys2), lagrange_terms(xs, ys), n);
}

/// Lagrange's formula through points that all lie on the x-axis gives zero.
pub proof fn lemma_interpolation_of_zero(xs: Seq<int>, ys: Seq<int>)
    requires
        forall|i: int| 0 <= i < xs.len() ==> #[trigger] ys[i] == 0,
    ensures
        interpolate_at_zero(xs, ys) == 0,
{
    let n = xs.len() as int;
    let w = |i: int| basis_at_zero(xs, i);
    assert forall|i: int| 0 <= i < n implies #[trigger] lagrange_terms(xs, ys)(i) == f_mul(
        0,
        w(i),
    ) by {
        assert(ys[i] == 0);
    }
    lemma_sum_scale(0, w, lagrange_terms(xs, ys), n);
    lemma_mul_zero_one(field_sum(w, n));
}

} // verus!
