use ccr_enclave::binary64::{Real, CANONICAL_NAN_BITS};

fn num(x: f64) -> Real {
    Real::from_bits(x.to_bits())
}

#[test]
fn decodes_one_and_minus_two() {
    match num(1.0) {
        Real::Finite { negative, mantissa, exponent } => {
            assert!(!negative);
            assert_eq!(mantissa, 1u64 << 52);
            assert_eq!(exponent, -52);
        }
        other => panic!("unexpected {:?}", other),
    }
    match num(-2.0) {
        Real::Finite { negative, mantissa, exponent } => {
            assert!(negative);
            assert_eq!(mantissa, 1u64 << 52);
            assert_eq!(exponent, -51);
        }
        other => panic!("unexpected {:?}", other),
    }
}

#[test]
fn decodes_subnormal_infinities_and_nan() {
    match num(f64::from_bits(1)) {
        Real::Finite { negative, mantissa, exponent } => {
            assert!(!negative);
            assert_eq!(mantissa, 1);
            assert_eq!(exponent, -1074);
        }
        other => panic!("unexpected {:?}", other),
    }
    assert!(matches!(num(f64::INFINITY), Real::PositiveInfinity));
    assert!(matches!(num(f64::NEG_INFINITY), Real::NegativeInfinity));
    assert!(num(f64::NAN).is_not_a_number());
}

#[test]
fn encoding_round_trips() {
    let samples = [
        0.0,
        -0.0,
        1.0,
        -1.5,
        0.1,
        123456.789,
        f64::MAX,
        f64::MIN_POSITIVE,
        f64::from_bits(1),
        f64::INFINITY,
        f64::NEG_INFINITY,
    ];
    for x in samples.iter() {
        assert_eq!(num(*x).to_bits(), x.to_bits());
    }
}

#[test]
fn nan_encodes_canonically() {
    let odd_nan = f64::from_bits(0x7ff0_0000_0000_0001);
    assert_eq!(num(odd_nan).to_bits(), CANONICAL_NAN_BITS);
}

#[test]
fn comparisons_follow_ieee() {
    assert!(num(-0.0).value_eq(&num(0.0)));
    assert!(num(-0.0).le(&num(0.0)) && num(0.0).le(&num(-0.0)));
    assert!(!num(-0.0).lt(&num(0.0)));
    assert!(num(0.1).lt(&num(0.2)));
    assert!(!num(0.2).lt(&num(0.1)));
    assert!(num(f64::NEG_INFINITY).lt(&num(-1e300)));
    assert!(num(1e300).lt(&num(f64::INFINITY)));
    assert!(num(f64::from_bits(1)).lt(&num(f64::MIN_POSITIVE)));
    assert!(num(-3.0).lt(&num(-2.5)));
    let nan = num(f64::NAN);
    assert!(!nan.value_eq(&nan));
    assert!(!nan.le(&num(1.0)) && !num(1.0).le(&nan));
    assert!(!nan.lt(&num(1.0)) && !num(1.0).lt(&nan));
}

#[test]
fn comparisons_agree_with_f64() {
    let samples = [
        -1e308, -3.5, -1.0, -0.1, -0.0, 0.0, 1e-320, 0.1, 0.3, 1.0, 2.0, 50000.0, 4.5e15, 1e308,
    ];
    for a in samples.iter() {
        for b in samples.iter() {
            assert_eq!(num(*a).le(&num(*b)), a <= b, "{} <= {}", a, b);
            assert_eq!(num(*a).lt(&num(*b)), a < b, "{} < {}", a, b);
            assert_eq!(num(*a).value_eq(&num(*b)), a == b, "{} == {}", a, b);
        }
    }
}

#[test]
fn integers_match_their_binary64() {
    assert!(Real::from_nat(50000).value_eq(&num(50000.0)));
    assert!(Real::from_nat(0).value_eq(&num(-0.0)));
    assert!(Real::from_nat(1).lt(&num(1.0000000000000002)));
    assert!(num(0.9999999999999999).lt(&Real::from_nat(1)));
}

#[test]
fn absolute_value_drops_the_sign() {
    assert_eq!(num(-2.5).abs().to_bits(), 2.5f64.to_bits());
    assert_eq!(num(2.5).abs().to_bits(), 2.5f64.to_bits());
    assert!(matches!(num(f64::NEG_INFINITY).abs(), Real::PositiveInfinity));
    assert!(num(f64::NAN).abs().is_not_a_number());
}
