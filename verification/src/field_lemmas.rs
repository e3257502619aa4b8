//! The laws of arithmetic modulo 127 that the rest of the library rests on:
//! the ring laws of `f_add`, `f_sub`, `f_neg` and `f_mul`, the primality of
//! the modulus, and the existence and uniqueness of multiplicative inverses.
//!
//! Only the first three lemmas look into `reduce`. The others follow from
//! them by integer arithmetic.

use crate::field::{f_add, f_inv, f_mul, f_neg, f_sub, is_canonical, is_inverse, reduce, MODULUS};
use vstd::arithmetic::div_mod::{
    lemma_fundamental_div_mod, lemma_mod_multiples_vanish, lemma_mod_self_0, lemma_small_mod,
};
use vstd::prelude::*;

verus! {

/// A reduced integer is a canonical representative, and differs from the
/// integer by a multiple of the modulus: the lemma returns how many times
/// the modulus was taken off.
pub proof fn lemma_reduce_multiple(n: int) -> (k: int)
    ensures
        reduce(n) == n - MODULUS as int * k,
        is_canonical(reduce(n)),
{
    reveal(reduce);
    lemma_fundamental_div_mod(n, MODULUS as int);
    n / (MODULUS as int)
}

/// Integers that differ by a multiple of the modulus have the same
/// canonical representative.
pub proof fn lemma_reduce_congruent(x: int, y: int, k: int)
    requires
        x - y == MODULUS as int * k,
    ensures
        reduce(x) == reduce(y),
{
    reveal(reduce);
    lemma_mod_multiples_vanish(k, y, MODULUS as int);
}

/// A canonical representative is its own reduction.
pub proof fn lemma_reduce_of_canonical(a: int)
    requires
        is_canonical(a),
    ensures
        reduce(a) == a,
{
    reveal(reduce);
    lemma_small_mod(a as nat, MODULUS as nat);
}

/// A reduced integer is a canonical representative, and reducing it again
/// changes nothing.
pub proof fn lemma_reduce_canonical(n: int)
    ensures
        is_canonical(reduce(n)),
        reduce(reduce(n)) == reduce(n),
{
    lemma_reduce_multiple(n);
    lemma_reduce_of_canonical(reduce(n));
}

/// Reducing a summand first does not change a sum.
pub proof fn lemma_add_reduce(x: int, y: int)
    ensures
        reduce(reduce(x) + y) == reduce(x + y),
        reduce(x + reduce(y)) == reduce(x + y),
        reduce(reduce(x) + reduce(y)) == reduce(x + y),
{
    let kx = lemma_reduce_multiple(x);
    let ky = lemma_reduce_multiple(y);
    lemma_reduce_congruent(reduce(x) + y, x + y, -kx);
    lemma_reduce_congruent(x + reduce(y), x + y, -ky);
    lemma_reduce_congruent(reduce(x) + reduce(y), x + y, -kx - ky);
}

/// Reducing an operand first does not change a difference.
pub proof fn lemma_sub_reduce(x: int, y: int)
    ensures
        reduce(reduce(x) - y) == reduce(x - y),
        reduce(x - reduce(y)) == reduce(x - y),
        reduce(reduce(x) - reduce(y)) == reduce(x - y),
{
    let kx = lemma_reduce_multiple(x);
    let ky = lemma_reduce_multiple(y);
    lemma_reduce_congruent(reduce(x) - y, x - y, -kx);
    lemma_reduce_congruent(x - reduce(y), x - y, ky);
    lemma_reduce_congruent(reduce(x) - reduce(y), x - y, ky - kx);
}

/// Reducing first does not change a negation.
pub proof fn lemma_neg_reduce(x: int)
    ensures
        reduce(-reduce(x)) == reduce(-x),
{
    let kx = lemma_reduce_multiple(x);
    lemma_reduce_congruent(-reduce(x), -x, kx);
}

/// Addition is associative.
pub proof fn lemma_add_associative(a: int, b: int, c: int)
    ensures
        f_add(f_add(a, b), c) == f_add(a, f_add(b, c)),
{
    lemma_add_reduce(a + b, c);
    lemma_add_reduce(a, b + c);
}

/// Two sums of two are added up pairwise.
pub proof fn lemma_add_interchange(a: int, b: int, c: int, d: int)
    ensures
        f_add(f_add(a, b), f_add(c, d)) == f_add(f_add(a, c), f_add(b, d)),
{
    lemma_add_reduce(a + b, c + d);
    lemma_add_reduce(a + c, b + d);
}

/// The sum of three reduced integers is the reduced sum of the three.
pub proof fn lemma_add_reduced(a: int, b: int, c: int)
    ensures
        f_add(f_add(reduce(a), reduce(b)), reduce(c)) == reduce(a + b + c),
{
    lemma_add_reduce(a, b);
    lemma_add_reduce(a + b, c);
}

/// Adding a difference back gives the element that was subtracted from.
pub proof fn lemma_add_sub_cancel(a: int, x: int)
    ensures
        f_add(a, f_sub(x, a)) == reduce(x),
{
    lemma_add_reduce(a, x - a);
}

/// A canonical summand that does not change a canonical element is zero.
pub proof fn lemma_cancel_summand(a: int, b: int)
    requires
        is_canonical(a),
        is_canonical(b),
        f_add(a, b) == a,
    ensures
        b == 0,
{
    lemma_reduce_multiple(a + b);
}

/// Canonical representatives that differ have a difference that is not
/// zero.
pub proof fn lemma_sub_nonzero(a: int, b: int)
    requires
        is_canonical(a),
        is_canonical(b),
        a != b,
    ensures
        f_sub(a, b) != 0,
        reduce(f_sub(a, b)) != 0,
{
    if a > b {
        lemma_reduce_of_canonical(a - b);
    } else {
        lemma_reduce_congruent(a - b, a - b + MODULUS as int, -1);
        lemma_reduce_of_canonical(a - b + MODULUS as int);
    }
}

/// Subtracting a negated element adds the element.
pub proof fn lemma_sub_neg(a: int, b: int)
    ensures
        f_sub(a, f_neg(b)) == f_add(a, b),
{
    lemma_sub_reduce(a, -b);
}

/// The difference of two differences from one element.
pub proof fn lemma_sub_of_subs(x: int, a: int, b: int)
    ensures
        f_sub(f_sub(x, b), f_sub(x, a)) == f_sub(a, b),
{
    lemma_sub_reduce(x - b, x - a);
}

/// Swapping the operands of a difference negates it.
pub proof fn lemma_neg_sub(a: int, b: int)
    ensures
        f_neg(f_sub(b, a)) == f_sub(a, b),
{
    lemma_neg_reduce(b - a);
}

/// Negating twice changes nothing but the representative.
pub proof fn lemma_neg_neg(a: int)
    ensures
        f_neg(f_neg(a)) == reduce(a),
{
    lemma_neg_reduce(-a);
}

/// Adding `a` to the negation of `b` gives `a - b`.
pub proof fn lemma_neg_plus(a: int, b: int)
    ensures
        f_add(reduce(f_neg(b)), reduce(a)) == reduce(f_sub(a, b)),
{
    lemma_reduce_canonical(-b);
    lemma_reduce_canonical(a - b);
    lemma_add_reduce(-b, a);
}

/// A product in the field is a canonical representative.
pub proof fn lemma_mul_canonical(a: int, b: int)
    ensures
        is_canonical(f_mul(a, b)),
{
    lemma_reduce_canonical(a * b);
}

/// Reducing a factor first does not change a product.
pub proof fn lemma_mul_reduce(a: int, b: int)
    ensures
        f_mul(reduce(a), b) == f_mul(a, b),
        f_mul(a, reduce(b)) == f_mul(a, b),
{
    let p = MODULUS as int;
    let ka = lemma_reduce_multiple(a);
    let kb = lemma_reduce_multiple(b);
    assert(reduce(a) * b - a * b == p * (-(ka * b))) by (nonlinear_arith)
        requires
            reduce(a) == a - p * ka,
    ;
    assert(a * reduce(b) - a * b == p * (-(a * kb))) by (nonlinear_arith)
        requires
            reduce(b) == b - p * kb,
    ;
    lemma_reduce_congruent(reduce(a) * b, a * b, -(ka * b));
    lemma_reduce_congruent(a * reduce(b), a * b, -(a * kb));
}

/// Multiplication is commutative.
pub proof fn lemma_mul_commutative(a: int, b: int)
    ensures
        f_mul(a, b) == f_mul(b, a),
{
    assert(a * b == b * a) by (nonlinear_arith);
}

/// Multiplication is associative.
pub proof fn lemma_mul_associative(a: int, b: int, c: int)
    ensures
        f_mul(f_mul(a, b), c) == f_mul(a, f_mul(b, c)),
{
    lemma_mul_reduce(a * b, c);
    lemma_mul_reduce(a, b * c);
    assert((a * b) * c == a * (b * c)) by (nonlinear_arith);
}

/// Multiplication distributes over addition.
pub proof fn lemma_mul_distributes_add(a: int, b: int, c: int)
    ensures
        f_mul(a, f_add(b, c)) == f_add(f_mul(a, b), f_mul(a, c)),
        f_mul(f_add(b, c), a) == f_add(f_mul(b, a), f_mul(c, a)),
{
    lemma_mul_reduce(a, b + c);
    lemma_add_reduce(a * b, a * c);
    assert(a * (b + c) == a * b + a * c) by (nonlinear_arith);
    lemma_mul_commutative(a, f_add(b, c));
    lemma_mul_commutative(a, b);
    lemma_mul_commutative(a, c);
}

/// Multiplication distributes over subtraction.
pub proof fn lemma_mul_distributes_sub(a: int, b: int, c: int)
    ensures
        f_mul(a, f_sub(b, c)) == f_sub(f_mul(a, b), f_mul(a, c)),
        f_mul(f_sub(b, c), a) == f_sub(f_mul(b, a), f_mul(c, a)),
{
    lemma_mul_reduce(a, b - c);
    lemma_sub_reduce(a * b, a * c);
    assert(a * (b - c) == a * b - a * c) by (nonlinear_arith);
    lemma_mul_commutative(a, f_sub(b, c));
    lemma_mul_commutative(a, b);
    lemma_mul_commutative(a, c);
}

/// A product with a negated factor is the negated product.
pub proof fn lemma_mul_neg(a: int, b: int)
    ensures
        f_mul(a, f_neg(b)) == f_neg(f_mul(a, b)),
        f_mul(f_neg(a), b) == f_neg(f_mul(a, b)),
{
    lemma_mul_reduce(a, -b);
    lemma_mul_reduce(-a, b);
    lemma_neg_reduce(a * b);
    assert(a * (-b) == -(a * b)) by (nonlinear_arith);
    assert((-a) * b == -(a * b)) by (nonlinear_arith);
}

/// Zero annihilates and one is neutral.
pub proof fn lemma_mul_zero_one(a: int)
    ensures
        f_mul(a, 0) == 0,
        f_mul(0, a) == 0,
        f_mul(a, 1) == reduce(a),
        f_mul(1, a) == reduce(a),
{
    assert(a * 0 == 0 && 0 * a == 0 && a * 1 == a && 1 * a == a) by (nonlinear_arith);
    lemma_reduce_of_canonical(0);
}

/// `d` divides `n`.
pub open spec fn divides(d: int, n: int) -> bool {
    n % d == 0
}

/// No integer above 1 divides both `a` and `b`.
pub open spec fn coprime(a: int, b: int) -> bool {
    forall|d: int| d > 1 && #[trigger] divides(d, a) ==> !divides(d, b)
}

/// The modulus is prime: it has no divisor strictly between 1 and itself.
pub proof fn lemma_modulus_is_prime()
    ensures
        forall|d: int| 1 < d < MODULUS as int ==> !#[trigger] divides(d, MODULUS as int),
{
    assert forall|d: int| 1 < d < MODULUS as int implies !#[trigger] divides(
        d,
        MODULUS as int,
    ) by {
        let small: u8 = d as u8;
        assert(127u8 % small != 0) by (bit_vector)
            requires
                1 < small && small < 127,
        ;
    }
}

/// Every canonical representative but zero is coprime to the modulus.
pub proof fn lemma_coprime_to_modulus(a: int)
    requires
        is_canonical(a),
        a != 0,
    ensures
        coprime(MODULUS as int, a),
{
    lemma_modulus_is_prime();
    assert forall|d: int| d > 1 && #[trigger] divides(d, MODULUS as int) implies !divides(
        d,
        a,
    ) by {
        if d > MODULUS as int {
            lemma_small_mod(MODULUS as nat, d as nat);
        }
        assert(d == MODULUS as int);
        lemma_small_mod(a as nat, MODULUS as nat);
    }
}

/// A common divisor of `r1` and of `r0 - q * r1` divides `r0`, so the
/// remainder step of Euclid's algorithm keeps a pair coprime.
pub proof fn lemma_coprime_step(r0: int, r1: int, q: int)
    requires
        coprime(r0, r1),
    ensures
        coprime(r1, r0 - q * r1),
{
    assert forall|d: int| d > 1 && #[trigger] divides(d, r1) implies !divides(d, r0 - q * r1) by {
        if divides(d, r0 - q * r1) {
            let k = r1 / d;
            lemma_fundamental_div_mod(r1, d);
            assert(r1 == d * k);
            assert(q * r1 == d * (q * k)) by (nonlinear_arith)
                requires
                    r1 == d * k,
            ;
            lemma_mod_multiples_vanish(q * k, r0 - q * r1, d);
            assert(d * (q * k) + (r0 - q * r1) == r0);
            assert(divides(d, r0));
        }
    }
}

/// A pair whose second component is zero is coprime only if the first is 1.
pub proof fn lemma_coprime_with_zero(r0: int)
    requires
        r0 >= 1,
        coprime(r0, 0),
    ensures
        r0 == 1,
{
    if r0 > 1 {
        lemma_mod_self_0(r0);
        assert(divides(r0, r0));
        assert(divides(r0, 0));
    }
}

/// One step of the extended algorithm keeps the congruence between a
/// remainder and the multiple of `a` that stands for it.
pub proof fn lemma_bezout_step(a: int, r0: int, r1: int, s0: int, s1: int, q: int, s2: int)
    requires
        reduce(a * s0) == reduce(r0),
        reduce(a * s1) == reduce(r1),
        s2 == f_sub(s0, f_mul(q, s1)),
    ensures
        reduce(a * s2) == reduce(r0 - q * r1),
{
    let p = MODULUS as int;
    let qs = f_mul(q, s1);
    let k0 = lemma_reduce_multiple(a * s0) - lemma_reduce_multiple(r0);
    let k1 = lemma_reduce_multiple(a * s1) - lemma_reduce_multiple(r1);
    let k2 = lemma_reduce_multiple(q * s1);
    let k3 = lemma_reduce_multiple(s0 - qs);
    assert(a * s0 - r0 == p * k0);
    assert(a * s1 - r1 == p * k1);
    assert(a * qs == q * (a * s1) - p * (a * k2)) by (nonlinear_arith)
        requires
            qs == q * s1 - p * k2,
    ;
    assert(q * (a * s1) == q * r1 + p * (q * k1)) by (nonlinear_arith)
        requires
            a * s1 - r1 == p * k1,
    ;
    assert(a * s2 == a * s0 - a * qs - p * (a * k3)) by (nonlinear_arith)
        requires
            s2 == s0 - qs - p * k3,
    ;
    lemma_reduce_congruent(a * s2, r0 - q * r1, k0 - q * k1 + a * k2 - a * k3);
}

/// Euclid's extended algorithm, run as a proof: from a coprime pair of
/// remainders that are congruent to multiples of `a` it reaches the
/// remainder 1, and the multiple that stands for it is an inverse of `a`.
proof fn lemma_euclid_reaches_inverse(a: int, r0: int, r1: int, s0: int, s1: int)
    requires
        0 <= r1 < r0,
        is_canonical(s0),
        is_canonical(s1),
        reduce(a * s0) == reduce(r0),
        reduce(a * s1) == reduce(r1),
        coprime(r0, r1),
    ensures
        exists|b: int| is_inverse(a, b),
    decreases r1,
{
    if r1 == 0 {
        lemma_coprime_with_zero(r0);
        lemma_reduce_of_canonical(1);
        assert(is_inverse(a, s0));
    } else {
        let q = r0 / r1;
        let s2 = f_sub(s0, f_mul(q, s1));
        lemma_fundamental_div_mod(r0, r1);
        assert(r0 - q * r1 == r0 % r1) by (nonlinear_arith)
            requires
                r0 == r1 * q + r0 % r1,
        ;
        lemma_bezout_step(a, r0, r1, s0, s1, q, s2);
        lemma_coprime_step(r0, r1, q);
        lemma_reduce_canonical(s0 - f_mul(q, s1));
        lemma_euclid_reaches_inverse(a, r1, r0 % r1, s1, s2);
    }
}

/// Every element but zero has a multiplicative inverse, and `f_inv` names
/// it.
pub proof fn lemma_inverse_exists(a: int)
    requires
        reduce(a) != 0,
    ensures
        is_inverse(a, f_inv(a)),
        is_canonical(f_inv(a)),
        f_mul(a, f_inv(a)) == 1,
        f_mul(f_inv(a), a) == 1,
{
    let r = reduce(a);
    lemma_reduce_canonical(a);
    lemma_coprime_to_modulus(r);
    lemma_reduce_congruent(MODULUS as int, 0, 1);
    lemma_euclid_reaches_inverse(a, MODULUS as int, r, 0, 1);
}

/// Round trip of the inverse: every element but zero, times its inverse, is
/// one; and zero has no inverse.
pub proof fn law_inverse_round_trip(a: int)
    ensures
        reduce(a) != 0 ==> f_mul(a, f_inv(a)) == 1,
        reduce(a) == 0 ==> forall|b: int| !is_inverse(a, b),
{
    if reduce(a) != 0 {
        lemma_inverse_exists(a);
    } else {
        assert forall|b: int| !is_inverse(a, b) by {
            lemma_mul_reduce(a, b);
            lemma_mul_zero_one(b);
        }
    }
}

/// A product is zero only if one of its factors is.
pub proof fn lemma_no_zero_divisors(a: int, b: int)
    requires
        f_mul(a, b) == 0,
    ensures
        reduce(a) == 0 || reduce(b) == 0,
{
    if reduce(a) != 0 {
        lemma_inverse_exists(a);
        lemma_mul_associative(f_inv(a), a, b);
        lemma_mul_zero_one(b);
    }
}

/// An element has at most one multiplicative inverse.
pub proof fn lemma_inverse_unique(a: int, b: int, c: int)
    requires
        is_inverse(a, b),
        is_inverse(a, c),
    ensures
        b == c,
{
    lemma_mul_associative(b, a, c);
    lemma_mul_commutative(b, a);
    lemma_reduce_of_canonical(b);
    lemma_reduce_of_canonical(c);
}

} // verus!
