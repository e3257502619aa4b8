//! Shamir secret sharing: a secret is the constant term of a random
//! polynomial, a share is a point of that polynomial, and the secret is
//! recovered from enough shares by Lagrange interpolation at zero.

use crate::field::{f_add, f_mul, fq, is_canonical, lemma_fq_view, reduce, Fq, MODULUS};
use crate::field_lemmas::{
    lemma_add_reduced, lemma_cancel_summand, lemma_mul_associative, lemma_mul_canonical,
    lemma_mul_reduce, lemma_mul_zero_one, lemma_no_zero_divisors, lemma_reduce_canonical,
    lemma_reduce_of_canonical, lemma_sub_nonzero,
};
use crate::lagrange_lemmas::{
    lemma_interpolation_additive, lemma_interpolation_of_polynomial,
    lemma_interpolation_of_zero, lemma_sum_congruence,
};
use crate::lagrange::{
    basis_factor, basis_product, field_sum, interpolate_at_zero, lagrange_terms,
};
use crate::polynomial::{
    lemma_poly_eval_canonical, lemma_poly_eval_zero, poly_eval, views, Polynomial,
};
use vstd::prelude::*;

verus! {

/// Why a list of evaluation points cannot be shared over.
#[derive(Clone, Copy, Debug, PartialEq, Eq, Structural)]
pub enum ShareError {
    /// A point is zero in the field. The share at zero is the secret itself.
    ZeroPoint,
    /// Two points are the same element of the field.
    DuplicatePoint,
}

/// The field elements at which the parties with the identifiers `inputs`
/// hold their shares.
pub open spec fn evaluation_points(inputs: Seq<u64>) -> Seq<int> {
    inputs.map_values(|id: u64| reduce(id as int))
}

/// Some identifier stands for the zero of the field.
pub open spec fn has_zero_point(inputs: Seq<u64>) -> bool {
    exists|i: int| 0 <= i < inputs.len() && reduce(#[trigger] inputs[i] as int) == 0
}

/// The error that sharing over `inputs` ends in, if any. A zero point is
/// reported before a duplicate.
pub open spec fn share_error(inputs: Seq<u64>) -> Option<ShareError> {
    if has_zero_point(inputs) {
        Some(ShareError::ZeroPoint)
    } else if !evaluation_points(inputs).no_duplicates() {
        Some(ShareError::DuplicatePoint)
    } else {
        None
    }
}

/// The x-coordinates of a list of points.
pub open spec fn point_xs(points: Seq<(Fq, Fq)>) -> Seq<int> {
    points.map_values(|p: (Fq, Fq)| p.0@)
}

/// The y-coordinates of a list of points.
pub open spec fn point_ys(points: Seq<(Fq, Fq)>) -> Seq<int> {
    points.map_values(|p: (Fq, Fq)| p.1@)
}

/// The share of the party with the identifier `id`: the point of the
/// polynomial `coeffs` at the field element that `id` stands for.
pub open spec fn share_at(coeffs: Seq<int>, id: u64) -> (Fq, Fq) {
    (fq(id as int), fq(poly_eval(coeffs, reduce(id as int))))
}

/// `shares` holds, for each identifier of `inputs` in turn, the point of the
/// polynomial `coeffs` at that identifier's field element.
pub open spec fn is_sharing(shares: Seq<(Fq, Fq)>, coeffs: Seq<int>, inputs: Seq<u64>) -> bool {
    &&& shares.len() == inputs.len()
    &&& forall|i: int|
        0 <= i < shares.len() ==> #[trigger] shares[i] == share_at(coeffs, inputs[i])
}

/// The x-coordinates of a sharing are the field elements of the identifiers.
pub proof fn lemma_sharing_points(shares: Seq<(Fq, Fq)>, coeffs: Seq<int>, inputs: Seq<u64>)
    requires
        is_sharing(shares, coeffs, inputs),
    ensures
        point_xs(shares) == evaluation_points(inputs),
{
    assert forall|i: int| 0 <= i < shares.len() implies point_xs(shares)[i] == evaluation_points(
        inputs,
    )[i] by {
        assert(shares[i] == share_at(coeffs, inputs[i]));
        lemma_fq_view(inputs[i] as int);
    }
    assert(point_xs(shares) =~= evaluation_points(inputs));
}

/// `shares` are points of one polynomial of degree at most `t` whose
/// constant term is `secret`, one for each identifier of `inputs` in turn.
pub open spec fn hides_secret(shares: Seq<(Fq, Fq)>, secret: int, t: int, inputs: Seq<u64>) -> bool {
    exists|coeffs: Seq<int>|
        coeffs.len() == t + 1 && coeffs[0] == secret && #[trigger] is_sharing(
            shares,
            coeffs,
            inputs,
        )
}

/// The coefficients of the polynomial that hides `secret` behind the random
/// draws `draws`: the secret, then each draw reduced into the field.
pub open spec fn hiding_coefficients(secret: int, draws: Seq<u64>) -> Seq<int> {
    seq![secret] + evaluation_points(draws)
}

/// A draw from the thread-local generator of `rand`, by `rand::random`.
/// Nothing is claimed of the value. The call fails only where the system's
/// source of randomness fails when the generator is first seeded.
#[verifier::external_body]
fn random_u64() -> u64 {
    rand::random::<u64>()
}

/// A random element of the field: a random 64-bit integer, reduced.
pub fn generate_secret() -> (secret: Fq)
    ensures
        is_canonical(secret@),
{
    let secret = Fq::from_int(random_u64());
    proof {
        secret.lemma_view_canonical();
    }
    secret
}

/// The polynomial whose constant term is `secret` and whose further
/// coefficients are the draws, each reduced into the field.
pub fn polynomial_from_draws(secret: Fq, draws: &Vec<u64>) -> (p: Polynomial)
    ensures
        p@ == hiding_coefficients(secret@, draws@),
{
    let mut coeffs: Vec<Fq> = Vec::new();
    coeffs.push(secret);
    let mut i: usize = 0;
    while i < draws.len()
        invariant
            i <= draws.len(),
            views(coeffs@) =~= hiding_coefficients(secret@, draws@.take(i as int)),
        decreases draws.len() - i,
    {
        let c = Fq::from_int(draws[i]);
        coeffs.push(c);
        i = i + 1;
        proof {
            let before = hiding_coefficients(secret@, draws@.take(i as int - 1));
            let after = hiding_coefficients(secret@, draws@.take(i as int));
            assert(after =~= before.push(c@));
            assert(views(coeffs@) =~= after);
        }
    }
    proof {
        assert(draws@.take(draws.len() as int) =~= draws@);
    }
    Polynomial::from_coefficients(coeffs)
}

/// A polynomial of degree `t` that hides `s`: its constant term is `s`, and
/// each of its `t` further coefficients is a fresh random element.
pub fn create_pol(s: Fq, t: usize) -> (p: Polynomial)
    ensures
        p@.len() == t + 1,
        p@[0] == s@,
{
    let mut draws: Vec<u64> = Vec::new();
    let mut i: usize = 0;
    while i < t
        invariant
            i <= t,
            draws.len() == i,
        decreases t - i,
    {
        draws.push(random_u64());
        i = i + 1;
    }
    polynomial_from_draws(s, &draws)
}

/// Tests a list of identifiers for the two faults that forbid sharing over
/// it.
pub fn check_points(inputs: &Vec<u64>) -> (r: Result<(), ShareError>)
    ensures
        match r {
            Ok(_) => share_error(inputs@) is None,
            Err(e) => share_error(inputs@) == Some(e),
        },
{
    let n: usize = inputs.len();
    let mut i: usize = 0;
    while i < n
        invariant
            i <= n,
            n == inputs.len(),
            forall|k: int| 0 <= k < i ==> reduce(#[trigger] inputs[k] as int) != 0,
        decreases n - i,
    {
        proof {
            reveal(reduce);
        }
        if inputs[i] % MODULUS == 0 {
            return Err(ShareError::ZeroPoint);
        }
        i = i + 1;
    }
    let ghost xs = evaluation_points(inputs@);
    let mut i: usize = 0;
    while i < n
        invariant
            i <= n,
            n == inputs.len(),
            xs == evaluation_points(inputs@),
            !has_zero_point(inputs@),
            forall|a: int, b: int| 0 <= a < i && a < b < n ==> xs[a] != xs[b],
        decreases n - i,
    {
        let mut j: usize = i + 1;
        while j < n
            invariant
                i < j <= n,
                n == inputs.len(),
                xs == evaluation_points(inputs@),
                !has_zero_point(inputs@),
                forall|b: int| i < b < j ==> xs[i as int] != xs[b],
            decreases n - j,
        {
            proof {
                reveal(reduce);
            }
            if inputs[i] % MODULUS == inputs[j] % MODULUS {
                proof {
                    assert(xs[i as int] == xs[j as int]);
                }
                return Err(ShareError::DuplicatePoint);
            }
            j = j + 1;
        }
        i = i + 1;
    }
    Ok(())
}

/// The points of `poly` at the field elements of the identifiers `inputs`,
/// in their order.
pub fn evaluate_at(poly: &Polynomial, inputs: &Vec<u64>) -> (shares: Vec<(Fq, Fq)>)
    ensures
        is_sharing(shares@, poly@, inputs@),
        point_xs(shares@) == evaluation_points(inputs@),
{
    let mut shares: Vec<(Fq, Fq)> = Vec::new();
    let mut i: usize = 0;
    while i < inputs.len()
        invariant
            i <= inputs.len(),
            is_sharing(shares@, poly@, inputs@.take(i as int)),
        decreases inputs.len() - i,
    {
        let x = Fq::from_int(inputs[i]);
        let y = poly.evaluate(x);
        shares.push((x, y));
        i = i + 1;
    }
    proof {
        assert(inputs@.take(inputs.len() as int) =~= inputs@);
        lemma_sharing_points(shares@, poly@, inputs@);
    }
    shares
}

/// Shares of `secret` for the parties with the identifiers `inputs`: one
/// point per identifier, in their order, all on one fresh random polynomial
/// of degree `t` whose constant term is the secret. Identifiers that stand
/// for zero or for the same field element are refused.
pub fn get_shares_secret(secret: Fq, inputs: Vec<u64>, t: usize) -> (r: Result<
    Vec<(Fq, Fq)>,
    ShareError,
>)
    ensures
        r is Ok <==> share_error(inputs@) is None,
        r matches Err(e) ==> share_error(inputs@) == Some(e),
        r matches Ok(shares) ==> hides_secret(shares@, secret@, t as int, inputs@),
        r matches Ok(shares) ==> point_xs(shares@) == evaluation_points(inputs@),
{
    match check_points(&inputs) {
        Err(e) => Err(e),
        Ok(_) => {
            let p = create_pol(secret, t);
            let shares = evaluate_at(&p, &inputs);
            proof {
                assert(is_sharing(shares@, p@, inputs@));
            }
            Ok(shares)
        },
    }
}

/// Whether no two of the points share an x-coordinate.
pub fn distinct_points(points: &Vec<(Fq, Fq)>) -> (r: bool)
    ensures
        r <==> point_xs(points@).no_duplicates(),
{
    let n: usize = points.len();
    let ghost xs = point_xs(points@);
    let mut i: usize = 0;
    while i < n
        invariant
            i <= n,
            n == points.len(),
            xs == point_xs(points@),
            forall|a: int, b: int| 0 <= a < i && a < b < n ==> xs[a] != xs[b],
        decreases n - i,
    {
        let mut j: usize = i + 1;
        while j < n
            invariant
                i < j <= n,
                n == points.len(),
                xs == point_xs(points@),
                forall|b: int| i < b < j ==> xs[i as int] != xs[b],
            decreases n - j,
        {
            if points[i].0.value() == points[j].0.value() {
                proof {
                    assert(xs[i as int] == xs[j as int]);
                }
                return false;
            }
            j = j + 1;
        }
        i = i + 1;
    }
    true
}

/// The value at zero of the polynomial of least degree through the given
/// points, by Lagrange's formula. The x-coordinates must differ from one
/// another.
pub fn interpolate(coeff: Vec<(Fq, Fq)>) -> (r: Fq)
    requires
        point_xs(coeff@).no_duplicates(),
    ensures
        r@ == interpolate_at_zero(point_xs(coeff@), point_ys(coeff@)),
        r.is_normal(),
{
    let n: usize = coeff.len();
    let ghost xs = point_xs(coeff@);
    let ghost ys = point_ys(coeff@);
    let mut result: Fq = Fq::zero();
    let mut i: usize = 0;
    while i < n
        invariant
            i <= n,
            n == coeff.len(),
            xs == point_xs(coeff@),
            ys == point_ys(coeff@),
            xs.no_duplicates(),
            result@ == field_sum(lagrange_terms(xs, ys), i as int),
            result.is_normal(),
        decreases n - i,
    {
        let xi: Fq = coeff[i].0;
        let mut term: Fq = coeff[i].1;
        let mut j: usize = 0;
        proof {
            term.lemma_view_canonical();
            lemma_reduce_of_canonical(term@);
        }
        while j < n
            invariant
                j <= n,
                i < n,
                n == coeff.len(),
                xs == point_xs(coeff@),
                ys == point_ys(coeff@),
                xs.no_duplicates(),
                xi@ == xs[i as int],
                term@ == f_mul(ys[i as int], basis_product(xs, xi@, i as int, j as int)),
            decreases n - j,
        {
            if i != j {
                let xj: Fq = coeff[j].0;
                let denominator: Fq = xi.sub(xj);
                proof {
                    xi.lemma_view_canonical();
                    xj.lemma_view_canonical();
                    assert(xs[j as int] == xj@);
                    assert(xi@ != xj@);
                    lemma_sub_nonzero(xi@, xj@);
                }
                let inv: Fq = denominator.inverse().unwrap();
                let numerator: Fq = xj.neg();
                proof {
                    lemma_mul_associative(
                        ys[i as int],
                        basis_product(xs, xi@, i as int, j as int),
                        basis_factor(xi@, xj@),
                    );
                }
                term = term.mul(numerator.mul(inv));
            }
            j = j + 1;
        }
        result = result.add(term);
        i = i + 1;
    }
    result
}

/// The shares at the positions `picks` of a list of shares.
pub open spec fn picked(shares: Seq<(Fq, Fq)>, picks: Seq<int>) -> Seq<(Fq, Fq)> {
    picks.map_values(|k: int| shares[k])
}

/// `picks` names positions of a list of `len` entries, none of them twice.
pub open spec fn is_selection(picks: Seq<int>, len: int) -> bool {
    &&& picks.no_duplicates()
    &&& forall|k: int| 0 <= k < picks.len() ==> 0 <= #[trigger] picks[k] < len
}

/// Reconstruction: where `shares` are what sharing `secret` with the
/// threshold `t` among the parties `inputs` has given, interpolation over
/// any `t + 1` of them, or more, gives back the secret.
pub proof fn law_reconstruction(
    shares: Seq<(Fq, Fq)>,
    secret: int,
    t: int,
    inputs: Seq<u64>,
    picks: Seq<int>,
)
    requires
        is_canonical(secret),
        t >= 0,
        share_error(inputs) is None,
        hides_secret(shares, secret, t, inputs),
        is_selection(picks, shares.len() as int),
        picks.len() >= t + 1,
    ensures
        picked(shares, picks).len() == picks.len(),
        point_xs(picked(shares, picks)).no_duplicates(),
        interpolate_at_zero(point_xs(picked(shares, picks)), point_ys(picked(shares, picks)))
            == secret,
{
    let coeffs = choose|coeffs: Seq<int>|
        coeffs.len() == t + 1 && coeffs[0] == secret && #[trigger] is_sharing(
            shares,
            coeffs,
            inputs,
        );
    let chosen = picked(shares, picks);
    let xs = point_xs(chosen);
    let ys = point_ys(chosen);
    let points = evaluation_points(inputs);
    assert forall|k: int| 0 <= k < xs.len() implies is_canonical(#[trigger] xs[k]) && ys[k]
        == poly_eval(coeffs, xs[k]) && xs[k] == points[picks[k]] by {
        let id = inputs[picks[k]];
        assert(chosen[k] == shares[picks[k]]);
        assert(shares[picks[k]] == share_at(coeffs, id));
        lemma_fq_view(id as int);
        lemma_fq_view(poly_eval(coeffs, reduce(id as int)));
        lemma_reduce_canonical(id as int);
        lemma_poly_eval_canonical(coeffs, reduce(id as int));
        lemma_reduce_of_canonical(poly_eval(coeffs, reduce(id as int)));
    }
    assert forall|a: int, b: int| 0 <= a < xs.len() && 0 <= b < xs.len() && a != b implies xs[a]
        != xs[b] by {
        assert(picks[a] != picks[b]);
        assert(points[picks[a]] != points[picks[b]]);
    }
    lemma_interpolation_of_polynomial(coeffs, xs, ys);
    lemma_poly_eval_zero(coeffs);
    lemma_reduce_of_canonical(secret);
}

/// Interpolation over one point gives the y-coordinate of that point.
pub proof fn law_single_point(x: int, y: int)
    ensures
        interpolate_at_zero(seq![x], seq![y]) == reduce(y),
{
    let xs = seq![x];
    let ys = seq![y];
    let terms = lagrange_terms(xs, ys);
    assert(basis_product(xs, x, 0, 0) == 1);
    assert(basis_product(xs, x, 0, 1) == 1);
    assert(terms(0) == f_mul(y, 1));
    assert(field_sum(terms, 0) == 0);
    assert(field_sum(terms, 1) == f_add(field_sum(terms, 0), terms(0)));
    lemma_reduce_canonical(y);
}

/// Too few shares: below the threshold nothing is promised. Where a secret
/// is hidden by a line that is not flat, interpolation over one share alone,
/// at whatever point but zero, does not give the secret.
pub proof fn law_one_share_misses(secret: int, slope: int, x: int)
    requires
        is_canonical(secret),
        reduce(slope) != 0,
        reduce(x) != 0,
    ensures
        interpolate_at_zero(seq![x], seq![poly_eval(seq![secret, slope], x)]) != secret,
{
    let line = seq![secret, slope];
    let y = poly_eval(line, x);
    let tail = line.drop_first();
    assert(tail.len() == 1 && tail[0] == slope);
    assert(tail.drop_first().len() == 0);
    assert(poly_eval(tail.drop_first(), x) == 0);
    assert(poly_eval(tail, x) == f_add(slope, f_mul(x, 0)));
    assert(y == f_add(secret, f_mul(x, poly_eval(tail, x))));
    lemma_mul_zero_one(x);
    lemma_mul_reduce(x, slope);
    law_single_point(x, y);
    lemma_poly_eval_canonical(line, x);
    lemma_reduce_of_canonical(y);
    if y == secret {
        let product = f_mul(x, slope);
        lemma_mul_canonical(x, slope);
        assert(product == 0) by {
            lemma_cancel_summand(secret, product);
        }
        lemma_no_zero_divisors(x, slope);
    }
}

/// The values at `x` of a list of polynomials, by index.
pub open spec fn values_at(polys: Seq<Seq<int>>, x: int) -> spec_fn(int) -> int {
    |k: int| poly_eval(polys[k], x)
}

/// The sum of the values at `x` of a list of polynomials. At zero it is the
/// sum of their constant terms.
pub open spec fn summed_value(polys: Seq<Seq<int>>, x: int) -> int {
    field_sum(values_at(polys, x), polys.len() as int)
}

/// Additive homomorphism: where every party adds up the shares that it
/// holds, one of each polynomial of `polys` and all at its own point,
/// interpolation over the sums of as many parties as a polynomial has
/// coefficients, or more, gives the sum of the secrets, which are the
/// values of the polynomials at zero.
pub proof fn law_additive_homomorphism(polys: Seq<Seq<int>>, xs: Seq<int>, sums: Seq<int>)
    requires
        forall|k: int| 0 <= k < polys.len() ==> (#[trigger] polys[k]).len() <= xs.len(),
        forall|j: int| 0 <= j < xs.len() ==> is_canonical(#[trigger] xs[j]),
        xs.no_duplicates(),
        sums.len() == xs.len(),
        forall|j: int| 0 <= j < xs.len() ==> #[trigger] sums[j] == summed_value(polys, xs[j]),
    ensures
        interpolate_at_zero(xs, sums) == summed_value(polys, 0),
    decreases polys.len(),
{
    let n = polys.len() as int;
    if n == 0 {
        lemma_interpolation_of_zero(xs, sums);
    } else {
        let rest = polys.drop_last();
        let last = polys.last();
        let rest_sums = Seq::new(xs.len(), |j: int| summed_value(rest, xs[j]));
        let last_values = Seq::new(xs.len(), |j: int| poly_eval(last, xs[j]));
        assert forall|x: int| #[trigger]
            summed_value(polys, x) == f_add(summed_value(rest, x), poly_eval(last, x)) by {
            lemma_sum_congruence(values_at(polys, x), values_at(rest, x), n - 1);
        }
        law_additive_homomorphism(rest, xs, rest_sums);
        lemma_interpolation_of_polynomial(last, xs, last_values);
        assert forall|j: int| 0 <= j < xs.len() implies #[trigger] sums[j] == f_add(
            rest_sums[j],
            last_values[j],
        ) by {
            assert(sums[j] == summed_value(polys, xs[j]));
        }
        lemma_interpolation_additive(xs, rest_sums, last_values, sums);
    }
}

/// Additive homomorphism for three parties: where each of three secrets is
/// shared by a polynomial of its own over the same points, and every party
/// adds up the three shares at its point, interpolation over the sums of as
/// many parties as a polynomial has coefficients, or more, gives the sum of
/// the three secrets.
pub proof fn law_three_party_sum(
    first: Seq<int>,
    second: Seq<int>,
    third: Seq<int>,
    xs: Seq<int>,
    sums: Seq<int>,
)
    requires
        0 < first.len() <= xs.len(),
        0 < second.len() <= xs.len(),
        0 < third.len() <= xs.len(),
        forall|j: int| 0 <= j < xs.len() ==> is_canonical(#[trigger] xs[j]),
        xs.no_duplicates(),
        sums.len() == xs.len(),
        forall|j: int|
            0 <= j < xs.len() ==> #[trigger] sums[j] == f_add(
                f_add(poly_eval(first, xs[j]), poly_eval(second, xs[j])),
                poly_eval(third, xs[j]),
            ),
    ensures
        interpolate_at_zero(xs, sums) == reduce(first[0] + second[0] + third[0]),
{
    let polys = seq![first, second, third];
    assert forall|x: int| #[trigger]
        summed_value(polys, x) == f_add(
            f_add(poly_eval(first, x), poly_eval(second, x)),
            poly_eval(third, x),
        ) by {
        let f = values_at(polys, x);
        assert(field_sum(f, 0) == 0);
        assert(field_sum(f, 1) == f_add(field_sum(f, 0), f(0)));
        assert(field_sum(f, 2) == f_add(field_sum(f, 1), f(1)));
        assert(field_sum(f, 3) == f_add(field_sum(f, 2), f(2)));
        lemma_poly_eval_canonical(first, x);
        lemma_reduce_of_canonical(poly_eval(first, x));
    }
    assert forall|j: int| 0 <= j < xs.len() implies #[trigger] sums[j] == summed_value(
        polys,
        xs[j],
    ) by {
        assert(sums[j] == f_add(
            f_add(poly_eval(first, xs[j]), poly_eval(second, xs[j])),
            poly_eval(third, xs[j]),
        ));
    }
    law_additive_homomorphism(polys, xs, sums);
    lemma_poly_eval_zero(first);
    lemma_poly_eval_zero(second);
    lemma_poly_eval_zero(third);
    lemma_add_reduced(first[0], second[0], third[0]);
}

} // verus!
