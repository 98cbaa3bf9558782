use raytracer::double::{Double, INFINITY, ONE, SIGN_BIT, ZERO};

fn number(x: f64) -> Double {
    Double::from_bits(x.to_bits())
}

fn samples() -> Vec<f64> {
    vec![
        0.0,
        -0.0,
        f64::from_bits(1),
        -f64::from_bits(1),
        f64::MIN_POSITIVE,
        -f64::MIN_POSITIVE,
        f64::MIN_POSITIVE / 2.0,
        0.001,
        0.1,
        -0.1,
        0.5,
        1.0 - f64::EPSILON / 2.0,
        1.0,
        1.0 + f64::EPSILON,
        -1.0,
        1.5,
        2.0,
        4.0,
        -4.0,
        255.0,
        1.0e300,
        -1.0e300,
        f64::MAX,
        f64::MIN,
        f64::INFINITY,
        f64::NEG_INFINITY,
        f64::NAN,
        -f64::NAN,
        f64::from_bits(0x7FF0_0000_0000_0001),
        f64::from_bits(0xFFFF_FFFF_FFFF_FFFF),
    ]
}

#[test]
fn lt_agrees_with_the_machine_on_every_pair() {
    let xs = samples();
    for a in xs.iter() {
        for b in xs.iter() {
            assert_eq!(number(*a).lt(number(*b)), *a < *b, "{:?} < {:?}", a, b);
        }
    }
}

#[test]
fn is_nan_agrees_with_the_machine() {
    for a in samples() {
        assert_eq!(number(a).is_nan(), a.is_nan(), "{:?}", a);
    }
}

#[test]
fn is_positive_finite_agrees_with_the_machine() {
    for a in samples() {
        assert_eq!(number(a).is_positive_finite(), a > 0.0 && a < f64::INFINITY, "{:?}", a);
    }
}

#[test]
fn nan_is_less_than_nothing_and_nothing_is_less_than_nan() {
    let nan = number(f64::NAN);
    for a in samples() {
        assert!(!nan.lt(number(a)));
        assert!(!number(a).lt(nan));
    }
}

#[test]
fn the_two_zeros_are_not_ordered() {
    assert!(!number(-0.0).lt(number(0.0)));
    assert!(!number(0.0).lt(number(-0.0)));
    assert!(number(-0.0) != number(0.0));
}

#[test]
fn lt_orders_across_the_sign() {
    assert!(number(-1.0).lt(number(1.0)));
    assert!(!number(1.0).lt(number(-1.0)));
    assert!(number(-4.0).lt(number(-1.0)));
    assert!(!number(-1.0).lt(number(-4.0)));
    assert!(number(f64::NEG_INFINITY).lt(number(f64::MIN)));
    assert!(number(f64::MAX).lt(number(f64::INFINITY)));
}

#[test]
fn lt_is_irreflexive() {
    for a in samples() {
        assert!(!number(a).lt(number(a)));
    }
}

#[test]
fn bits_round_trip() {
    assert_eq!(Double::from_bits(0x4010_0000_0000_0000).to_bits(), 4.0f64.to_bits());
    assert_eq!(number(1.0).to_bits(), ONE);
    assert_eq!(number(0.0).to_bits(), ZERO);
    assert_eq!(number(-0.0).to_bits(), SIGN_BIT);
    assert_eq!(number(f64::INFINITY).to_bits(), INFINITY);
    assert_eq!(f64::from_bits(number(0.1).to_bits()), 0.1);
}
