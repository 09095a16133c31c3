use riddle_core::InfRational;
use riddle_core::Rational;

#[test]
fn test_new() {
    let r1 = Rational::new(1, 2);
    let r2 = Rational::new(3, 4);
    let ir = InfRational::new(r1, r2);
    assert_eq!(ir.rat(), r1);
    assert_eq!(ir.inf(), r2);
}

#[test]
fn test_equality() {
    let ir1 = InfRational::new(Rational::new(1, 2), Rational::new(3, 4));
    let ir2 = InfRational::new(Rational::new(2, 4), Rational::new(3, 4));
    assert_eq!(ir1, ir2);

    let ir3 = InfRational::new(Rational::new(1, 2), Rational::from_integer(0));
    let r = Rational::new(1, 2);
    assert_eq!(ir3, &r);

    let ir4 = InfRational::new(Rational::from_integer(5), Rational::from_integer(0));
    assert_eq!(ir4, 5);
}

#[test]
fn test_ord() {
    let ir1 = InfRational::new(Rational::from_integer(0), Rational::from_integer(1));
    let ir2 = InfRational::new(Rational::from_integer(100), Rational::from_integer(0));

    assert!(ir1 < ir2);

    let ir3 = InfRational::new(Rational::from_integer(0), Rational::from_integer(-1));
    assert!(ir3 < ir2);
    assert!(ir3 < ir1);

    let ir4 = InfRational::new(Rational::from_integer(1), Rational::from_integer(1));
    assert!(ir4 > ir1);
}

#[test]
fn test_ord_with_primitive_and_rational() {
    let pos_inf = InfRational::new(Rational::from_integer(0), Rational::from_integer(1));
    let neg_inf = InfRational::new(Rational::from_integer(0), Rational::from_integer(-1));
    let zero = 0;
    let rat_ten = Rational::from_integer(10);

    assert!(pos_inf > zero);
    assert!(pos_inf < &rat_ten);

    assert!(neg_inf < zero);
    assert!(neg_inf < &rat_ten);
}

#[test]
fn inf_rational_test_arithmetic() {
    let a = InfRational::new(Rational::from_integer(1), Rational::from_integer(2));
    let b = InfRational::new(Rational::from_integer(3), Rational::from_integer(4));

    assert_eq!(
        a + &b,
        InfRational::new(Rational::from_integer(4), Rational::from_integer(6))
    );

    assert_eq!(
        b - &a,
        InfRational::new(Rational::from_integer(2), Rational::from_integer(2))
    );

    let scalar = Rational::from_integer(2);
    assert_eq!(
        a * &scalar,
        InfRational::new(Rational::from_integer(2), Rational::from_integer(4))
    );

    assert_eq!(
        a / &scalar,
        InfRational::new(Rational::new(1, 2), Rational::from_integer(1))
    );
}

#[test]
fn inf_rational_ordering_scenario() {
    let a = InfRational::new(Rational::from_integer(0), Rational::from_integer(1));
    let b = InfRational::new(Rational::from_integer(100), Rational::from_integer(0));
    assert!(a < b);
    assert!(-a < b);
    assert!(InfRational::new(Rational::from_integer(1), Rational::from_integer(1)) > a);
}

#[test]
fn inf_rational_adding_epsilons_gives_more() {
    let a = InfRational::new(Rational::new(7, 3), Rational::new(-5, 2));
    let k = InfRational::new(Rational::zero(), Rational::from_integer(3));
    let sum = a + &k;
    assert!(a < sum);
    assert_eq!(sum, InfRational::new(Rational::new(7, 3), Rational::new(1, 2)));
}

#[test]
fn inf_rational_mixed_operands() {
    let a = InfRational::new(Rational::from_integer(1), Rational::from_integer(2));
    let r = Rational::new(1, 2);
    assert_eq!(a + &r, InfRational::new(Rational::new(3, 2), Rational::from_integer(2)));
    assert_eq!(r + a, InfRational::new(Rational::new(3, 2), Rational::from_integer(2)));
    assert_eq!(a - 1, InfRational::new(Rational::zero(), Rational::from_integer(2)));
    assert_eq!(1 - a, InfRational::new(Rational::zero(), Rational::from_integer(-2)));
    assert_eq!(r - &a, InfRational::new(Rational::new(-1, 2), Rational::from_integer(-2)));
    assert_eq!(3 * a, InfRational::new(Rational::from_integer(3), Rational::from_integer(6)));
    assert_eq!(r * &a, InfRational::new(Rational::new(1, 2), Rational::from_integer(1)));
    assert_eq!(a / 4, InfRational::new(Rational::new(1, 4), Rational::new(1, 2)));
    assert_eq!(-a, InfRational::new(Rational::from_integer(-1), Rational::from_integer(-2)));
    assert_eq!(InfRational::from(r), InfRational::from_rational(r));
    assert_eq!(InfRational::from(4), InfRational::from_integer(4));
}

#[test]
fn inf_rational_display() {
    assert_eq!(InfRational::from_integer(3).to_string(), "3");
    assert_eq!(
        InfRational::new(Rational::zero(), Rational::new(-1, 2)).to_string(),
        "-1/2ε"
    );
    assert_eq!(
        InfRational::new(Rational::new(3, 4), Rational::from_integer(2)).to_string(),
        "3/4 + 2ε"
    );
    assert_eq!(InfRational::positive_infinity().to_string(), "∞");
    assert_eq!(InfRational::negative_infinity().to_string(), "-∞");
    assert_eq!(InfRational::zero().to_string(), "0");
}
