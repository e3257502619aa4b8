//! Why shares below the threshold reveal nothing: whatever as many parties
//! as the threshold hold, it fits every secret. For every candidate there is
//! a polynomial of the right degree that hides the candidate and passes
//! through all the shares held.

use crate::field::{f_add, f_inv, f_mul, f_neg, f_sub, fq, is_canonical, reduce, Fq};
use crate::field_lemmas::{
    lemma_add_interchange, lemma_add_reduce, lemma_add_sub_cancel, lemma_inverse_exists,
    lemma_mul_associative, lemma_mul_canonical, lemma_mul_distributes_add, lemma_mul_zero_one,
    lemma_no_zero_divisors, lemma_reduce_canonical, lemma_reduce_of_canonical, lemma_sub_nonzero,
};
use crate::lagrange_lemmas::{distinct_below, lemma_mul_swap};
use crate::polynomial::{lemma_poly_eval_canonical, poly_eval};
use crate::shamir_secret_sharing::{
    evaluation_points, hides_secret, is_sharing, share_at, share_error,
};
use vstd::prelude::*;

verus! {

/// The sum of two polynomials, coefficient by coefficient.
pub open spec fn poly_add(p: Seq<int>, q: Seq<int>) -> Seq<int>
    decreases p.len(),
{
    if p.len() == 0 {
        q
    } else if q.len() == 0 {
        p
    } else {
        seq![f_add(p[0], q[0])] + poly_add(p.drop_first(), q.drop_first())
    }
}

/// The polynomial `p` times the constant `c`.
pub open spec fn poly_scale(c: int, p: Seq<int>) -> Seq<int>
    decreases p.len(),
{
    if p.len() == 0 {
        p
    } else {
        seq![f_mul(c, p[0])] + poly_scale(c, p.drop_first())
    }
}

/// The polynomial `p` times `x`.
pub open spec fn poly_shift(p: Seq<int>) -> Seq<int> {
    seq![0int] + p
}

/// The polynomial `(x - xs[0]) * ... * (x - xs[m - 1])`, which vanishes at
/// the first `m` points.
pub open spec fn vanishing(xs: Seq<int>, m: int) -> Seq<int>
    decreases m,
{
    if m <= 0 {
        seq![1int]
    } else {
        let v = vanishing(xs, m - 1);
        poly_add(poly_shift(v), poly_scale(f_neg(xs[m - 1]), v))
    }
}

/// The product `(x - xs[0]) * ... * (x - xs[m - 1])` in the field.
pub open spec fn vanishing_value(xs: Seq<int>, x: int, m: int) -> int
    decreases m,
{
    if m <= 0 {
        1
    } else {
        f_mul(vanishing_value(xs, x, m - 1), f_sub(x, xs[m - 1]))
    }
}

/// The polynomial `p` with `n` zero coefficients after it.
pub open spec fn padded(p: Seq<int>, n: int) -> Seq<int> {
    p + Seq::new(n as nat, |i: int| 0int)
}

/// The sum of two polynomials is as long as the longer of them, and begins
/// with the sum of their constant terms.
pub proof fn lemma_poly_add_shape(p: Seq<int>, q: Seq<int>)
    ensures
        poly_add(p, q).len() == if p.len() >= q.len() {
            p.len()
        } else {
            q.len()
        },
        p.len() > 0 && q.len() > 0 ==> poly_add(p, q)[0] == f_add(p[0], q[0]),
    decreases p.len(),
{
    if p.len() > 0 && q.len() > 0 {
        lemma_poly_add_shape(p.drop_first(), q.drop_first());
    }
}

/// A multiple of a polynomial is as long as the polynomial, and begins with
/// the multiple of its constant term.
pub proof fn lemma_poly_scale_shape(c: int, p: Seq<int>)
    ensures
        poly_scale(c, p).len() == p.len(),
        p.len() > 0 ==> poly_scale(c, p)[0] == f_mul(c, p[0]),
    decreases p.len(),
{
    if p.len() > 0 {
        lemma_poly_scale_shape(c, p.drop_first());
    }
}

/// The value of a sum of polynomials is the sum of their values.
pub proof fn lemma_poly_add_eval(p: Seq<int>, q: Seq<int>, x: int)
    ensures
        poly_eval(poly_add(p, q), x) == f_add(poly_eval(p, x), poly_eval(q, x)),
    decreases p.len(),
{
    if p.len() == 0 {
        lemma_poly_eval_canonical(q, x);
        lemma_reduce_of_canonical(poly_eval(q, x));
    } else if q.len() == 0 {
        lemma_poly_eval_canonical(p, x);
        lemma_reduce_of_canonical(poly_eval(p, x));
    } else {
        let pt = p.drop_first();
        let qt = q.drop_first();
        let sum = poly_add(p, q);
        lemma_poly_add_eval(pt, qt, x);
        assert(sum[0] == f_add(p[0], q[0]));
        assert(sum.drop_first() =~= poly_add(pt, qt));
        lemma_mul_distributes_add(x, poly_eval(pt, x), poly_eval(qt, x));
        lemma_add_interchange(
            p[0],
            f_mul(x, poly_eval(pt, x)),
            q[0],
            f_mul(x, poly_eval(qt, x)),
        );
        lemma_add_reduce(
            p[0] + q[0],
            f_add(f_mul(x, poly_eval(pt, x)), f_mul(x, poly_eval(qt, x))),
        );
    }
}

/// The value of a multiple of a polynomial is the multiple of its value.
pub proof fn lemma_poly_scale_eval(c: int, p: Seq<int>, x: int)
    ensures
        poly_eval(poly_scale(c, p), x) == f_mul(c, poly_eval(p, x)),
    decreases p.len(),
{
    if p.len() == 0 {
        lemma_mul_zero_one(c);
    } else {
        let pt = p.drop_first();
        let scaled = poly_scale(c, p);
        lemma_poly_scale_eval(c, pt, x);
        assert(scaled[0] == f_mul(c, p[0]));
        assert(scaled.drop_first() =~= poly_scale(c, pt));
        lemma_mul_distributes_add(c, p[0], f_mul(x, poly_eval(pt, x)));
        lemma_mul_swap(x, c, poly_eval(pt, x));
    }
}

/// The value of `x * p` is `x` times the value of `p`.
pub proof fn lemma_poly_shift_eval(p: Seq<int>, x: int)
    ensures
        poly_eval(poly_shift(p), x) == f_mul(x, poly_eval(p, x)),
{
    let shifted = poly_shift(p);
    assert(shifted[0] == 0);
    assert(shifted.drop_first() =~= p);
    lemma_mul_canonical(x, poly_eval(p, x));
    lemma_reduce_of_canonical(f_mul(x, poly_eval(p, x)));
}

/// Zero coefficients after a polynomial do not change its values.
pub proof fn lemma_padded_eval(p: Seq<int>, n: int, x: int)
    requires
        n >= 0,
    ensures
        poly_eval(padded(p, n), x) == poly_eval(p, x),
    decreases p.len(), n,
{
    let wide = padded(p, n);
    if p.len() == 0 {
        if n > 0 {
            assert(wide[0] == 0);
            assert(wide.drop_first() =~= padded(p, n - 1));
            lemma_padded_eval(p, n - 1, x);
            lemma_reduce_of_canonical(0);
        } else {
            assert(wide =~= p);
        }
    } else {
        assert(wide[0] == p[0]);
        assert(wide.drop_first() =~= padded(p.drop_first(), n));
        lemma_padded_eval(p.drop_first(), n, x);
    }
}

/// The vanishing polynomial of `m` points has `m + 1` coefficients, and its
/// value at `x` is the product of the differences of `x` from the points.
pub proof fn lemma_vanishing(xs: Seq<int>, x: int, m: int)
    requires
        m >= 0,
    ensures
        vanishing(xs, m).len() == m + 1,
        poly_eval(vanishing(xs, m), x) == vanishing_value(xs, x, m),
    decreases m,
{
    if m == 0 {
        let one = seq![1int];
        assert(one.drop_first().len() == 0);
        assert(poly_eval(one.drop_first(), x) == 0);
        lemma_mul_zero_one(x);
        lemma_reduce_of_canonical(1);
    } else {
        let v = vanishing(xs, m - 1);
        let a = xs[m - 1];
        let value = poly_eval(v, x);
        lemma_vanishing(xs, x, m - 1);
        lemma_poly_add_shape(poly_shift(v), poly_scale(f_neg(a), v));
        lemma_poly_scale_shape(f_neg(a), v);
        lemma_poly_add_eval(poly_shift(v), poly_scale(f_neg(a), v), x);
        lemma_poly_shift_eval(v, x);
        lemma_poly_scale_eval(f_neg(a), v, x);
        lemma_difference_times(x, a, value);
    }
}

/// `x * v + (-a) * v == v * (x - a)`.
proof fn lemma_difference_times(x: int, a: int, v: int)
    ensures
        f_add(f_mul(x, v), f_mul(f_neg(a), v)) == f_mul(v, f_sub(x, a)),
{
    lemma_mul_distributes_add(v, x, f_neg(a));
    lemma_add_reduce(x, -a);
}

/// The vanishing polynomial vanishes at each of its points.
pub proof fn lemma_vanishing_at_point(xs: Seq<int>, m: int, j: int)
    requires
        0 <= j < m,
    ensures
        vanishing_value(xs, xs[j], m) == 0,
    decreases m,
{
    let x = xs[j];
    if j == m - 1 {
        lemma_mul_zero_one(vanishing_value(xs, x, m - 1));
    } else {
        lemma_vanishing_at_point(xs, m - 1, j);
        lemma_mul_zero_one(f_sub(x, xs[m - 1]));
    }
}

/// The vanishing polynomial vanishes nowhere else.
pub proof fn lemma_vanishing_elsewhere(xs: Seq<int>, x: int, m: int)
    requires
        m >= 0,
        is_canonical(x),
        forall|j: int| 0 <= j < m ==> is_canonical(#[trigger] xs[j]) && xs[j] != x,
    ensures
        vanishing_value(xs, x, m) != 0,
        is_canonical(vanishing_value(xs, x, m)),
    decreases m,
{
    if m > 0 {
        let before = vanishing_value(xs, x, m - 1);
        let d = f_sub(x, xs[m - 1]);
        lemma_vanishing_elsewhere(xs, x, m - 1);
        assert(is_canonical(xs[m - 1]) && xs[m - 1] != x);
        lemma_sub_nonzero(x, xs[m - 1]);
        lemma_mul_canonical(before, d);
        lemma_reduce_of_canonical(before);
        if f_mul(before, d) == 0 {
            lemma_no_zero_divisors(before, d);
        }
    }
}

/// A polynomial with `t + 1` coefficients whose constant term is `s` and
/// which takes the value `ys[i]` at `xs[i]`, for each of the first `t`
/// points.
pub proof fn lemma_polynomial_through(xs: Seq<int>, ys: Seq<int>, s: int, t: int) -> (p: Seq<int>)
    requires
        distinct_below(xs, t),
        t <= ys.len(),
        is_canonical(s),
        forall|i: int| 0 <= i < t ==> #[trigger] xs[i] != 0,
        forall|i: int| 0 <= i < t ==> is_canonical(#[trigger] ys[i]),
    ensures
        p.len() == t + 1,
        p[0] == s,
        forall|i: int| 0 <= i < t ==> poly_eval(p, #[trigger] xs[i]) == ys[i],
    decreases t,
{
    if t == 0 {
        seq![s]
    } else {
        let q = lemma_polynomial_through(xs, ys, s, t - 1);
        let a = xs[t - 1];
        let y = ys[t - 1];
        let v = vanishing(xs, t - 1);
        let n = poly_shift(v);
        let at_a = f_mul(a, vanishing_value(xs, a, t - 1));
        let gap = f_sub(y, poly_eval(q, a));
        let c = f_mul(gap, f_inv(at_a));
        let bump = poly_scale(c, n);
        let p = poly_add(q, bump);
        lemma_vanishing(xs, a, t - 1);
        lemma_poly_scale_shape(c, n);
        lemma_poly_add_shape(q, bump);
        assert(p[0] == s) by {
            assert(n[0] == 0);
            lemma_mul_zero_one(c);
            lemma_reduce_of_canonical(s);
        }
        assert(reduce(at_a) != 0) by {
            assert(is_canonical(a) && a != 0);
            lemma_vanishing_elsewhere(xs, a, t - 1);
            lemma_mul_canonical(a, vanishing_value(xs, a, t - 1));
            lemma_reduce_of_canonical(at_a);
            lemma_reduce_of_canonical(a);
            lemma_reduce_of_canonical(vanishing_value(xs, a, t - 1));
            if at_a == 0 {
                lemma_no_zero_divisors(a, vanishing_value(xs, a, t - 1));
            }
        }
        assert forall|i: int| 0 <= i < t implies poly_eval(p, #[trigger] xs[i]) == ys[i] by {
            let x = xs[i];
            lemma_poly_add_eval(q, bump, x);
            lemma_poly_scale_eval(c, n, x);
            lemma_poly_shift_eval(v, x);
            lemma_vanishing(xs, x, t - 1);
            if i < t - 1 {
                lemma_vanishing_at_point(xs, t - 1, i);
                lemma_mul_zero_one(c);
                assert(is_canonical(ys[i]));
                lemma_reduce_of_canonical(ys[i]);
            } else {
                lemma_inverse_exists(at_a);
                lemma_mul_associative(gap, f_inv(at_a), at_a);
                lemma_reduce_canonical(y - poly_eval(q, a));
                lemma_add_sub_cancel(poly_eval(q, a), y);
                lemma_reduce_of_canonical(y);
            }
        }
        p
    }
}

/// Secrecy: what as many parties as the threshold hold, or fewer, fits every
/// secret. Where `held` are shares at the points of the parties `ids`, there
/// is for every candidate a polynomial of degree at most `t` that hides the
/// candidate and gives every one of these parties the share that it holds.
pub proof fn law_shares_below_threshold_fit_every_secret(
    held: Seq<(Fq, Fq)>,
    ids: Seq<u64>,
    t: int,
    candidate: int,
)
    requires
        share_error(ids) is None,
        held.len() == ids.len(),
        ids.len() <= t,
        forall|i: int|
            0 <= i < held.len() ==> (#[trigger] held[i]).0 == fq(ids[i] as int)
                && held[i].1.is_normal(),
        is_canonical(candidate),
    ensures
        hides_secret(held, candidate, t, ids),
{
    let k = ids.len() as int;
    let xs = evaluation_points(ids);
    let ys = Seq::new(held.len(), |i: int| held[i].1@);
    assert forall|i: int| 0 <= i < k implies is_canonical(#[trigger] xs[i]) && xs[i] != 0 by {
        lemma_reduce_canonical(ids[i] as int);
    }
    assert forall|i: int| 0 <= i < k implies is_canonical(#[trigger] ys[i]) by {
        held[i].1.lemma_view_canonical();
    }
    assert(distinct_below(xs, k));
    let fit = lemma_polynomial_through(xs, ys, candidate, k);
    let coeffs = padded(fit, t - k);
    assert(coeffs[0] == fit[0]);
    assert forall|i: int| 0 <= i < held.len() implies #[trigger] held[i] == share_at(
        coeffs,
        ids[i],
    ) by {
        lemma_padded_eval(fit, t - k, xs[i]);
        assert(poly_eval(fit, xs[i]) == ys[i]);
        assert(held[i].1 == fq(held[i].1@));
    }
    assert(is_sharing(held, coeffs, ids));
}

} // verus!
