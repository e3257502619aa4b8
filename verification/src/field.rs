//! Arithmetic in the prime field of 127 elements.
//!
//! The mathematical model of a field element is its canonical representative,
//! an `int` in `[0, MODULUS)`. The spec functions `f_add`, `f_sub`, `f_neg`,
//! `f_mul` and `f_inv` define the field operations on representatives; the
//! executable type `Fq` computes them.

use crate::field_lemmas::{
    coprime, lemma_bezout_step, lemma_coprime_step, lemma_coprime_to_modulus,
    lemma_coprime_with_zero, lemma_inverse_unique,
};
use vstd::arithmetic::div_mod::lemma_fundamental_div_mod;
use vstd::prelude::*;

verus! {

/// The prime that the field is taken modulo.
pub const MODULUS: u64 = 127;

/// A generator of the multiplicative group of the field.
pub const GENERATOR: u64 = 3;

/// The parameters of the field: a prime modulus, and a generator of the
/// multiplicative group.
#[derive(Clone, Copy, Debug)]
pub struct FqConfig;

impl FqConfig {
    /// The modulus of the field.
    pub fn modulus() -> (p: u64)
        ensures
            p == MODULUS,
    {
        MODULUS
    }

    /// The generator of the multiplicative group.
    pub fn generator() -> (g: Fq)
        ensures
            g == fq(GENERATOR as int),
            g@ == GENERATOR,
    {
        proof {
            reveal(reduce);
        }
        Fq::from_int(GENERATOR)
    }
}

/// `a` is the canonical representative of a field element.
pub open spec fn is_canonical(a: int) -> bool {
    0 <= a < MODULUS as int
}

/// The canonical representative of the integer `n`.
#[verifier::opaque]
pub open spec fn reduce(n: int) -> int {
    n % (MODULUS as int)
}

/// Field addition.
pub open spec fn f_add(a: int, b: int) -> int {
    reduce(a + b)
}

/// Field subtraction.
pub open spec fn f_sub(a: int, b: int) -> int {
    reduce(a - b)
}

/// Additive inverse.
pub open spec fn f_neg(a: int) -> int {
    reduce(-a)
}

/// Field multiplication.
pub open spec fn f_mul(a: int, b: int) -> int {
    reduce(a * b)
}

/// `b` is the multiplicative inverse of `a`.
pub open spec fn is_inverse(a: int, b: int) -> bool {
    is_canonical(b) && f_mul(a, b) == 1
}

/// The multiplicative inverse of `a`. It is meaningful for every `a` that is
/// not a multiple of the modulus; for the others no inverse exists and the
/// value is arbitrary.
pub open spec fn f_inv(a: int) -> int {
    choose|b: int| is_inverse(a, b)
}

/// An element of the field, held as its canonical representative.
#[derive(Clone, Copy, Debug, PartialEq, Eq, Structural)]
pub struct Fq {
    value: u64,
}

impl View for Fq {
    type V = int;

    closed spec fn view(&self) -> int {
        reduce(self.value as int)
    }
}

/// The field element that the integer `n` stands for.
pub closed spec fn fq(n: int) -> Fq {
    Fq { value: reduce(n) as u64 }
}

/// The view of `fq(n)` is the canonical representative of `n`.
pub proof fn lemma_fq_view(n: int)
    ensures
        fq(n)@ == reduce(n),
        fq(reduce(n)) == fq(n),
{
    reveal(reduce);
}

impl From<u64> for Fq {
    /// The element that the unsigned integer `n` stands for.
    fn from(n: u64) -> (r: Fq) {
        Fq::from_int(n)
    }
}

impl vstd::std_specs::convert::FromSpecImpl<u64> for Fq {
    open spec fn obeys_from_spec() -> bool {
        true
    }

    open spec fn from_spec(n: u64) -> Fq {
        fq(n as int)
    }
}

impl Fq {
    #[verifier::type_invariant]
    spec fn canonical(self) -> bool {
        self.value < MODULUS
    }

    /// The element is the one that its view stands for. Every element that
    /// executable code holds is normal.
    pub open spec fn is_normal(self) -> bool {
        self == fq(self@)
    }

    /// The view of an element is always a canonical representative.
    pub proof fn lemma_view_canonical(self)
        ensures
            is_canonical(self@),
    {
        reveal(reduce);
    }

    /// The additive identity.
    pub fn zero() -> (r: Fq)
        ensures
            r@ == 0,
            r == fq(0),
    {
        proof {
            reveal(reduce);
        }
        Fq { value: 0 }
    }

    /// The multiplicative identity.
    pub fn one() -> (r: Fq)
        ensures
            r@ == 1,
            r == fq(1),
    {
        proof {
            reveal(reduce);
        }
        Fq { value: 1 }
    }

    /// Whether the element is the additive identity.
    pub fn is_zero(&self) -> (r: bool)
        ensures
            r <==> self@ == 0,
    {
        proof {
            reveal(reduce);
            use_type_invariant(self);
        }
        self.value == 0
    }

    /// The element that the unsigned integer `n` stands for.
    pub fn from_int(n: u64) -> (r: Fq)
        ensures
            r@ == reduce(n as int),
            r == fq(n as int),
    {
        proof {
            reveal(reduce);
        }
        Fq { value: n % MODULUS }
    }

    /// The canonical representative, as a machine integer.
    pub fn value(&self) -> (v: u64)
        ensures
            v as int == self@,
            is_canonical(self@),
            self.is_normal(),
    {
        proof {
            reveal(reduce);
            use_type_invariant(self);
        }
        self.value
    }

    /// The sum of two elements.
    pub fn add(self, rhs: Fq) -> (r: Fq)
        ensures
            r@ == f_add(self@, rhs@),
            r.is_normal(),
    {
        proof {
            reveal(reduce);
            use_type_invariant(self);
            use_type_invariant(rhs);
        }
        Fq { value: (self.value + rhs.value) % MODULUS }
    }

    /// The difference of two elements.
    pub fn sub(self, rhs: Fq) -> (r: Fq)
        ensures
            r@ == f_sub(self@, rhs@),
            r.is_normal(),
    {
        proof {
            reveal(reduce);
            use_type_invariant(self);
            use_type_invariant(rhs);
        }
        Fq { value: (self.value + (MODULUS - rhs.value)) % MODULUS }
    }

    /// The additive inverse of an element.
    pub fn neg(self) -> (r: Fq)
        ensures
            r@ == f_neg(self@),
            r.is_normal(),
    {
        proof {
            reveal(reduce);
            use_type_invariant(self);
        }
        Fq { value: (MODULUS - self.value) % MODULUS }
    }

    /// The product of two elements.
    pub fn mul(self, rhs: Fq) -> (r: Fq)
        ensures
            r@ == f_mul(self@, rhs@),
            r.is_normal(),
    {
        proof {
            reveal(reduce);
            use_type_invariant(self);
            use_type_invariant(rhs);
            assert(self.value * rhs.value <= 126 * 126) by (nonlinear_arith)
                requires
                    self.value <= 126,
                    rhs.value <= 126,
            ;
        }
        Fq { value: (self.value * rhs.value) % MODULUS }
    }

    /// The multiplicative inverse, which every element but zero has. It is
    /// found by Euclid's extended algorithm on the modulus and the element.
    pub fn inverse(&self) -> (r: Option<Fq>)
        ensures
            r is None <==> self@ == 0,
            r matches Some(inv) ==> f_mul(self@, inv@) == 1 && inv@ == f_inv(self@)
                && inv.is_normal(),
    {
        proof {
            reveal(reduce);
            use_type_invariant(self);
        }
        if self.value == 0 {
            return None;
        }
        let a: u64 = self.value;
        let mut r0: u64 = MODULUS;
        let mut r1: u64 = a;
        let mut s0: u64 = 0;
        let mut s1: u64 = 1;
        proof {
            reveal(reduce);
            lemma_coprime_to_modulus(a as int);
        }
        while r1 != 0
            invariant
                r1 < r0 <= MODULUS,
                s0 < MODULUS,
                s1 < MODULUS,
                reduce(a * s0) == reduce(r0 as int),
                reduce(a * s1) == reduce(r1 as int),
                coprime(r0 as int, r1 as int),
            decreases r1,
        {
            let q: u64 = r0 / r1;
            let r2: u64 = r0 % r1;
            proof {
                reveal(reduce);
                assert(q * s1 <= 127 * 126) by (nonlinear_arith)
                    requires
                        q <= 127,
                        s1 <= 126,
                ;
                lemma_fundamental_div_mod(r0 as int, r1 as int);
                assert(r0 - q * r1 == r2) by (nonlinear_arith)
                    requires
                        r0 == r1 * q + r2,
                ;
            }
            let qs: u64 = (q * s1) % MODULUS;
            let s2: u64 = (s0 + (MODULUS - qs)) % MODULUS;
            proof {
                lemma_bezout_step(
                    a as int,
                    r0 as int,
                    r1 as int,
                    s0 as int,
                    s1 as int,
                    q as int,
                    s2 as int,
                );
                lemma_coprime_step(r0 as int, r1 as int, q as int);
            }
            r0 = r1;
            r1 = r2;
            s0 = s1;
            s1 = s2;
        }
        proof {
            reveal(reduce);
            lemma_coprime_with_zero(r0 as int);
            lemma_inverse_unique(a as int, s0 as int, f_inv(a as int));
        }
        Some(Fq { value: s0 })
    }
}

} // verus!
