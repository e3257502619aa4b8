use shamir_mpc::field::{Fq, FqConfig, GENERATOR, MODULUS};

#[test]
fn modulus_is_127() {
    assert_eq!(MODULUS, 127);
    assert_eq!(FqConfig::modulus(), 127);
}

#[test]
fn generator_is_three() {
    assert_eq!(GENERATOR, 3);
    assert_eq!(FqConfig::generator().value(), 3);
}

#[test]
fn generator_has_full_order() {
    // The powers of the generator run through every element but zero
    // before they come back to one.
    let g = FqConfig::generator();
    let mut seen = vec![false; 127];
    let mut power = Fq::one();
    for _ in 0..126 {
        let v = power.value() as usize;
        assert!(v != 0);
        assert!(!seen[v]);
        seen[v] = true;
        power = power.mul(g);
    }
    assert_eq!(power, Fq::one());
}

#[test]
fn from_int_reduces() {
    assert_eq!(Fq::from_int(0).value(), 0);
    assert_eq!(Fq::from_int(126).value(), 126);
    assert_eq!(Fq::from_int(127).value(), 0);
    assert_eq!(Fq::from_int(128).value(), 1);
    assert_eq!(Fq::from_int(1000).value(), 111);
    assert_eq!(Fq::from_int(u64::MAX).value(), 1);
}

#[test]
fn from_u64_is_from_int() {
    assert_eq!(Fq::from(128u64), Fq::from_int(1));
    assert_eq!(Fq::from(5u64).value(), 5);
}

#[test]
fn zero_and_one() {
    assert_eq!(Fq::zero().value(), 0);
    assert_eq!(Fq::one().value(), 1);
    assert!(Fq::zero().is_zero());
    assert!(!Fq::one().is_zero());
    assert!(Fq::from_int(254).is_zero());
}

#[test]
fn addition_wraps() {
    assert_eq!(Fq::from_int(100).add(Fq::from_int(27)).value(), 0);
    assert_eq!(Fq::from_int(100).add(Fq::from_int(50)).value(), 23);
    assert_eq!(Fq::from_int(1).add(Fq::from_int(2)).value(), 3);
}

#[test]
fn subtraction_wraps() {
    assert_eq!(Fq::from_int(3).sub(Fq::from_int(5)).value(), 125);
    assert_eq!(Fq::from_int(5).sub(Fq::from_int(3)).value(), 2);
    assert_eq!(Fq::from_int(0).sub(Fq::from_int(0)).value(), 0);
}

#[test]
fn negation() {
    assert_eq!(Fq::from_int(0).neg().value(), 0);
    assert_eq!(Fq::from_int(1).neg().value(), 126);
    assert_eq!(Fq::from_int(126).neg().value(), 1);
}

#[test]
fn multiplication_reduces() {
    assert_eq!(Fq::from_int(12).mul(Fq::from_int(11)).value(), 5);
    assert_eq!(Fq::from_int(126).mul(Fq::from_int(126)).value(), 1);
    assert_eq!(Fq::from_int(0).mul(Fq::from_int(77)).value(), 0);
}

#[test]
fn inverse_of_three_is_eighty_five() {
    let three = Fq::from_int(3);
    let inv = three.inverse().unwrap();
    assert_eq!(inv.value(), 85);
    assert_eq!(three.mul(inv), Fq::one());
}

#[test]
fn inverse_of_zero_is_rejected() {
    assert_eq!(Fq::from_int(0).inverse(), None);
    assert_eq!(Fq::from_int(127).inverse(), None);
}

#[test]
fn inverse_round_trip_for_every_element() {
    for a in 1..127u64 {
        let x = Fq::from_int(a);
        let product = x.inverse().map(|inv| x.mul(inv));
        assert_eq!(product, Some(Fq::one()));
    }
}

#[test]
fn inverse_of_one_and_minus_one() {
    assert_eq!(Fq::from_int(1).inverse().unwrap().value(), 1);
    assert_eq!(Fq::from_int(126).inverse().unwrap().value(), 126);
    assert_eq!(Fq::from_int(2).inverse().unwrap().value(), 64);
}

#[test]
fn ring_laws_on_all_pairs() {
    for a in 0..127u64 {
        for b in 0..127u64 {
            let x = Fq::from_int(a);
            let y = Fq::from_int(b);
            assert_eq!(x.add(y), y.add(x));
            assert_eq!(x.mul(y), y.mul(x));
            assert_eq!(x.sub(y), x.add(y.neg()));
            assert_eq!(x.add(y).sub(y), x);
            assert_eq!(x.mul(y).value(), (a * b) % 127);
        }
    }
}
