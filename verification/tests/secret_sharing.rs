use shamir_mpc::field::Fq;
use shamir_mpc::polynomial::Polynomial;
use shamir_mpc::shamir_secret_sharing::{
    check_points, create_pol, distinct_points, evaluate_at, generate_secret, get_shares_secret,
    interpolate, polynomial_from_draws, ShareError,
};

fn point(x: u64, y: u64) -> (Fq, Fq) {
    (Fq::from_int(x), Fq::from_int(y))
}

fn example_polynomial() -> Polynomial {
    // 5 + 3x
    Polynomial::from_coefficients(vec![Fq::from_int(5), Fq::from_int(3)])
}

#[test]
fn test_secret_recovery() {
    // Generate a random secret
    let secret = generate_secret();

    // Define the number of shares and threshold
    let n = 5; // Number of shares
    let t = 2; // Threshold (degree of polynomial)

    // Generate inputs (1..=n)
    let inputs: Vec<u64> = (1..=n).collect();

    // Obtain shares
    let shares = get_shares_secret(secret, inputs, t).unwrap();

    // Recover the polynomial using interpolation
    let recovered_val = interpolate(shares);

    // Check if the constant term of the recovered polynomial is the secret
    assert_eq!(
        recovered_val, secret,
        "The recovered secret does not match the original secret"
    );
}

#[test]
fn generated_secret_is_in_the_field() {
    for _ in 0..200 {
        assert!(generate_secret().value() < 127);
    }
}

#[test]
fn polynomial_evaluates_by_horner() {
    let p = example_polynomial();
    assert_eq!(p.len(), 2);
    assert_eq!(p.coefficient(0).value(), 5);
    assert_eq!(p.coefficient(1).value(), 3);
    assert_eq!(p.evaluate(Fq::from_int(0)).value(), 5);
    assert_eq!(p.evaluate(Fq::from_int(1)).value(), 8);
    assert_eq!(p.evaluate(Fq::from_int(100)).value(), 51);
    // 1 + 2x + 3x^2 at 10 is 321, which is 67 modulo 127
    let q = Polynomial::from_coefficients(vec![
        Fq::from_int(1),
        Fq::from_int(2),
        Fq::from_int(3),
    ]);
    assert_eq!(q.evaluate(Fq::from_int(10)).value(), 67);
}

#[test]
fn empty_polynomial_is_zero() {
    let p = Polynomial::from_coefficients(Vec::new());
    assert_eq!(p.len(), 0);
    assert_eq!(p.evaluate(Fq::from_int(9)).value(), 0);
}

#[test]
fn end_to_end_scenario() {
    // p = 127, t = 1, ids {1, 2, 3}, secret 5, polynomial 5 + 3x
    let shares = evaluate_at(&example_polynomial(), &vec![1, 2, 3]);
    assert_eq!(shares, vec![point(1, 8), point(2, 11), point(3, 14)]);
    let five = Fq::from_int(5);
    assert_eq!(interpolate(vec![shares[0], shares[1]]), five);
    assert_eq!(interpolate(vec![shares[0], shares[2]]), five);
    assert_eq!(interpolate(vec![shares[1], shares[2]]), five);
    assert_eq!(interpolate(vec![shares[2], shares[0]]), five);
    assert_eq!(interpolate(shares), five);
}

#[test]
fn too_few_shares_give_no_guarantee() {
    // One point of 5 + 3x is below the threshold of two: what comes out is
    // the value of the constant polynomial through that point, not the
    // secret, and no error.
    assert_eq!(interpolate(vec![point(1, 8)]).value(), 8);
    assert_eq!(interpolate(vec![point(2, 11)]).value(), 11);
    assert_eq!(interpolate(Vec::new()).value(), 0);
}

#[test]
fn too_few_shares_may_still_hit_the_secret() {
    // 5 + 0x has degree below its threshold of one: here one share does
    // give the secret, so that nothing may be claimed either way.
    let flat = Polynomial::from_coefficients(vec![Fq::from_int(5), Fq::from_int(0)]);
    let shares = evaluate_at(&flat, &vec![1, 2]);
    assert_eq!(interpolate(vec![shares[0]]).value(), 5);
}

#[test]
fn interpolation_of_a_parabola() {
    // 7 + 2x + 9x^2 at 1, 2, 3, 4
    let p = Polynomial::from_coefficients(vec![
        Fq::from_int(7),
        Fq::from_int(2),
        Fq::from_int(9),
    ]);
    let shares = evaluate_at(&p, &vec![1, 2, 3, 4]);
    assert_eq!(shares, vec![point(1, 18), point(2, 47), point(3, 94), point(4, 32)]);
    assert_eq!(interpolate(vec![shares[0], shares[1], shares[2]]).value(), 7);
    assert_eq!(interpolate(vec![shares[3], shares[1], shares[0]]).value(), 7);
    assert_eq!(interpolate(shares).value(), 7);
}

#[test]
fn interpolation_with_a_point_at_zero() {
    let shares = vec![point(0, 5), point(1, 8)];
    assert_eq!(interpolate(shares).value(), 5);
}

#[test]
fn identifiers_are_taken_modulo_the_prime() {
    let shares = evaluate_at(&example_polynomial(), &vec![128, 255]);
    assert_eq!(shares, vec![point(1, 8), point(1, 8)]);
}

#[test]
fn duplicate_identifier_is_rejected() {
    let secret = Fq::from_int(5);
    assert_eq!(
        get_shares_secret(secret, vec![1, 2, 1], 1),
        Err(ShareError::DuplicatePoint)
    );
    assert_eq!(
        get_shares_secret(secret, vec![4, 4], 1),
        Err(ShareError::DuplicatePoint)
    );
}

#[test]
fn identifiers_congruent_modulo_the_prime_are_rejected() {
    let secret = Fq::from_int(5);
    assert_eq!(
        get_shares_secret(secret, vec![1, 2, 128], 1),
        Err(ShareError::DuplicatePoint)
    );
}

#[test]
fn zero_identifier_is_rejected() {
    let secret = Fq::from_int(5);
    assert_eq!(
        get_shares_secret(secret, vec![1, 0, 2], 1),
        Err(ShareError::ZeroPoint)
    );
    assert_eq!(
        get_shares_secret(secret, vec![127], 1),
        Err(ShareError::ZeroPoint)
    );
    // a zero is reported before a duplicate
    assert_eq!(
        get_shares_secret(secret, vec![1, 1, 254], 1),
        Err(ShareError::ZeroPoint)
    );
}

#[test]
fn check_points_accepts_distinct_points() {
    assert_eq!(check_points(&vec![1, 2, 3]), Ok(()));
    assert_eq!(check_points(&Vec::new()), Ok(()));
    assert_eq!(check_points(&vec![126, 128]), Ok(()));
    assert_eq!(check_points(&vec![3, 130]), Err(ShareError::DuplicatePoint));
    assert_eq!(check_points(&vec![381]), Err(ShareError::ZeroPoint));
}

#[test]
fn shares_come_one_per_identifier_in_order() {
    let secret = Fq::from_int(42);
    let shares = get_shares_secret(secret, vec![9, 4, 130, 1], 2).unwrap();
    assert_eq!(shares.len(), 4);
    assert_eq!(shares[0].0.value(), 9);
    assert_eq!(shares[1].0.value(), 4);
    assert_eq!(shares[2].0.value(), 3);
    assert_eq!(shares[3].0.value(), 1);
}

#[test]
fn any_threshold_plus_one_shares_recover_the_secret() {
    for s in [0u64, 1, 63, 126] {
        let secret = Fq::from_int(s);
        let shares = get_shares_secret(secret, vec![1, 2, 3, 4, 5], 2).unwrap();
        for a in 0..5 {
            for b in 0..5 {
                for c in 0..5 {
                    if a != b && b != c && a != c {
                        let chosen = vec![shares[a], shares[b], shares[c]];
                        assert_eq!(interpolate(chosen), secret);
                    }
                }
            }
        }
    }
}

#[test]
fn threshold_zero_hands_out_the_secret() {
    let secret = Fq::from_int(77);
    let shares = get_shares_secret(secret, vec![5, 6], 0).unwrap();
    assert_eq!(shares, vec![point(5, 77), point(6, 77)]);
}

#[test]
fn created_polynomial_keeps_the_secret() {
    for t in 0..6usize {
        let p = create_pol(Fq::from_int(99), t);
        assert_eq!(p.len(), t + 1);
        assert_eq!(p.coefficient(0).value(), 99);
        assert_eq!(p.evaluate(Fq::zero()).value(), 99);
    }
}

#[test]
fn polynomial_from_draws_reduces_each_draw() {
    let p = polynomial_from_draws(Fq::from_int(5), &vec![3, 130, 127, u64::MAX]);
    assert_eq!(p.len(), 5);
    assert_eq!(p.coefficient(0).value(), 5);
    assert_eq!(p.coefficient(1).value(), 3);
    assert_eq!(p.coefficient(2).value(), 3);
    assert_eq!(p.coefficient(3).value(), 0);
    assert_eq!(p.coefficient(4).value(), 1);
}

#[test]
fn distinct_points_sees_duplicates() {
    assert!(distinct_points(&vec![point(1, 8), point(2, 8)]));
    assert!(!distinct_points(&vec![point(1, 8), point(2, 11), point(1, 9)]));
    assert!(distinct_points(&Vec::new()));
}

#[test]
fn sums_of_shares_reconstruct_the_sum_of_secrets() {
    // secrets 5, 7 and 100 behind 5 + 3x, 7 + 10x and 100 + 126x
    let first = Polynomial::from_coefficients(vec![Fq::from_int(5), Fq::from_int(3)]);
    let second = Polynomial::from_coefficients(vec![Fq::from_int(7), Fq::from_int(10)]);
    let third = Polynomial::from_coefficients(vec![Fq::from_int(100), Fq::from_int(126)]);
    let ids: Vec<u64> = vec![1, 2, 3];
    let a = evaluate_at(&first, &ids);
    let b = evaluate_at(&second, &ids);
    let c = evaluate_at(&third, &ids);
    let mut sums: Vec<(Fq, Fq)> = Vec::new();
    for j in 0..3 {
        sums.push((a[j].0, a[j].1.add(b[j].1).add(c[j].1)));
    }
    assert_eq!(sums, vec![point(1, 124), point(2, 9), point(3, 21)]);
    assert_eq!(interpolate(vec![sums[0], sums[1]]).value(), 112);
    assert_eq!(interpolate(vec![sums[1], sums[2]]).value(), 112);
    assert_eq!(interpolate(vec![sums[0], sums[2]]).value(), 112);
    assert_eq!(interpolate(sums).value(), 112);
}

#[test]
fn one_share_fits_every_secret() {
    // With the threshold one, the share (1, 8) says nothing of the secret:
    // for every candidate there is a line that hides it and passes through
    // the share.
    for candidate in 0..127u64 {
        let slope = Fq::from_int(8).sub(Fq::from_int(candidate));
        let line = Polynomial::from_coefficients(vec![Fq::from_int(candidate), slope]);
        assert_eq!(line.evaluate(Fq::from_int(0)).value(), candidate);
        assert_eq!(line.evaluate(Fq::from_int(1)).value(), 8);
    }
}

#[test]
fn one_share_of_a_sloped_line_misses_the_secret() {
    for secret in [0u64, 5, 126] {
        for slope in 1..127u64 {
            let line =
                Polynomial::from_coefficients(vec![Fq::from_int(secret), Fq::from_int(slope)]);
            for x in 1..127u64 {
                let share = evaluate_at(&line, &vec![x]);
                assert_ne!(interpolate(share).value(), secret);
            }
        }
    }
}
