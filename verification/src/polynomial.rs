//! Polynomials over the field, given by their coefficients.

use crate::field::{f_add, f_mul, f_sub, is_canonical, reduce, Fq};
use crate::field_lemmas::{
    lemma_add_associative, lemma_add_sub_cancel, lemma_mul_associative, lemma_mul_distributes_add,
    lemma_mul_reduce, lemma_mul_zero_one, lemma_reduce_canonical, lemma_reduce_of_canonical,
};
use vstd::prelude::*;

verus! {

/// The value at `x` of the polynomial with the coefficients `coeffs`, the
/// constant term first: `coeffs[0] + x * (coeffs[1] + x * (coeffs[2] + ...))`.
pub open spec fn poly_eval(coeffs: Seq<int>, x: int) -> int
    decreases coeffs.len(),
{
    if coeffs.len() == 0 {
        0
    } else {
        f_add(coeffs[0], f_mul(x, poly_eval(coeffs.drop_first(), x)))
    }
}

/// The quotient of the polynomial `coeffs` by `x - a`: the polynomial `q`
/// with `coeffs(x) = coeffs(a) + (x - a) * q(x)`. It has one coefficient
/// less than `coeffs`.
pub open spec fn quotient(coeffs: Seq<int>, a: int) -> Seq<int>
    decreases coeffs.len(),
{
    if coeffs.len() <= 1 {
        Seq::empty()
    } else {
        seq![poly_eval(coeffs.drop_first(), a)] + quotient(coeffs.drop_first(), a)
    }
}

/// The value of a polynomial is a canonical representative.
pub proof fn lemma_poly_eval_canonical(coeffs: Seq<int>, x: int)
    ensures
        is_canonical(poly_eval(coeffs, x)),
{
    if coeffs.len() > 0 {
        lemma_reduce_canonical(coeffs[0] + f_mul(x, poly_eval(coeffs.drop_first(), x)));
    }
}

/// The value at zero of a polynomial is its constant term.
pub proof fn lemma_poly_eval_zero(coeffs: Seq<int>)
    ensures
        poly_eval(coeffs, 0) == if coeffs.len() == 0 {
            0
        } else {
            reduce(coeffs[0])
        },
{
    if coeffs.len() > 0 {
        lemma_mul_zero_one(poly_eval(coeffs.drop_first(), 0));
    }
}

/// The number of coefficients of a quotient.
pub proof fn lemma_quotient_len(coeffs: Seq<int>, a: int)
    ensures
        quotient(coeffs, a).len() == if coeffs.len() == 0 {
            0
        } else {
            coeffs.len() - 1
        },
    decreases coeffs.len(),
{
    if coeffs.len() > 1 {
        lemma_quotient_len(coeffs.drop_first(), a);
    }
}

/// The step of `lemma_quotient`, in terms of the values alone: where `ga`
/// and `qgx` are the values of the tail at `a` and of its quotient at `x`.
proof fn lemma_quotient_step(c0: int, x: int, a: int, ga: int, qgx: int)
    ensures
        ({
            let d = f_sub(x, a);
            let gx = f_add(ga, f_mul(d, qgx));
            let qx = f_add(ga, f_mul(x, qgx));
            f_add(c0, f_mul(x, gx)) == f_add(f_add(c0, f_mul(a, ga)), f_mul(d, qx))
        }),
{
    let d = f_sub(x, a);
    let m1 = f_mul(d, qgx);
    let m2 = f_mul(x, qgx);
    let t1 = f_mul(x, ga);
    let t2 = f_mul(x, m1);
    let t3 = f_mul(a, ga);
    let t4 = f_mul(d, ga);
    assert(f_mul(x, f_add(ga, m1)) == f_add(t1, t2)) by {
        lemma_mul_distributes_add(x, ga, m1);
    }
    assert(f_mul(d, f_add(ga, m2)) == f_add(t4, t2)) by {
        lemma_mul_distributes_add(d, ga, m2);
        lemma_mul_associative(x, d, qgx);
        lemma_mul_associative(d, x, qgx);
    }
    assert(f_add(t3, t4) == t1) by {
        lemma_mul_distributes_add(ga, a, d);
        lemma_add_sub_cancel(a, x);
        lemma_mul_reduce(x, ga);
    }
    assert(f_add(f_add(c0, t3), f_add(t4, t2)) == f_add(c0, f_add(t1, t2))) by {
        lemma_add_associative(c0, t3, f_add(t4, t2));
        lemma_add_associative(t3, t4, t2);
    }
}

/// Division with remainder by `x - a`: the remainder is the value at `a`.
pub proof fn lemma_quotient(coeffs: Seq<int>, a: int, x: int)
    ensures
        poly_eval(coeffs, x) == f_add(
            poly_eval(coeffs, a),
            f_mul(f_sub(x, a), poly_eval(quotient(coeffs, a), x)),
        ),
    decreases coeffs.len(),
{
    if coeffs.len() == 0 {
        lemma_reduce_of_canonical(0);
    } else {
        let c0 = coeffs[0];
        let g = coeffs.drop_first();
        let q = quotient(coeffs, a);
        let gx = poly_eval(g, x);
        let ga = poly_eval(g, a);
        if coeffs.len() == 1 {
            assert(g.len() == 0);
            assert(q.len() == 0);
            lemma_mul_zero_one(a);
            lemma_reduce_canonical(c0);
        } else {
            let qg = quotient(g, a);
            let qgx = poly_eval(qg, x);
            assert(q.drop_first() =~= qg);
            assert(q[0] == ga);
            lemma_quotient(g, a, x);
            lemma_quotient_step(c0, x, a, ga, qgx);
        }
    }
}

/// The representatives of a sequence of field elements.
pub open spec fn views(elements: Seq<Fq>) -> Seq<int> {
    elements.map_values(|e: Fq| e@)
}

/// A polynomial over the field. Its degree is at most the number of its
/// coefficients less one.
#[derive(Clone, Debug)]
pub struct Polynomial {
    coeffs: Vec<Fq>,
}

impl View for Polynomial {
    type V = Seq<int>;

    /// The representatives of the coefficients, the constant term first.
    closed spec fn view(&self) -> Seq<int> {
        views(self.coeffs@)
    }
}

impl Polynomial {
    /// The polynomial with the given coefficients, the constant term first.
    pub fn from_coefficients(coeffs: Vec<Fq>) -> (p: Polynomial)
        ensures
            p@ == views(coeffs@),
    {
        Polynomial { coeffs }
    }

    /// The number of coefficients.
    pub fn len(&self) -> (n: usize)
        ensures
            n == self@.len(),
    {
        self.coeffs.len()
    }

    /// The coefficient of `x^i`.
    pub fn coefficient(&self, i: usize) -> (c: Fq)
        requires
            i < self@.len(),
        ensures
            c@ == self@[i as int],
    {
        self.coeffs[i]
    }

    /// The value of the polynomial at `x`, by Horner's rule.
    pub fn evaluate(&self, x: Fq) -> (y: Fq)
        ensures
            y@ == poly_eval(self@, x@),
            y.is_normal(),
    {
        let n: usize = self.coeffs.len();
        let mut acc: Fq = Fq::zero();
        let mut i: usize = n;
        proof {
            assert(self@.subrange(n as int, n as int).len() == 0);
        }
        while i > 0
            invariant
                i <= n,
                n == self.coeffs.len(),
                self@.len() == n,
                acc@ == poly_eval(self@.subrange(i as int, n as int), x@),
                acc.is_normal(),
            decreases i,
        {
            i = i - 1;
            proof {
                let tail = self@.subrange(i as int, n as int);
                assert(tail.drop_first() =~= self@.subrange(i as int + 1, n as int));
                assert(tail[0] == self@[i as int]);
            }
            acc = self.coeffs[i].add(x.mul(acc));
        }
        proof {
            assert(self@.subrange(0, n as int) =~= self@);
        }
        acc
    }
}

} // verus!
