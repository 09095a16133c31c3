use riddle_core::Rational;

#[test]
fn test_new_and_normalization() {
    assert_eq!(Rational::new(2, 4), Rational::new(1, 2));
    assert_eq!(Rational::new(-2, 4), Rational::new(-1, 2));
    assert_eq!(Rational::new(2, -4), Rational::new(-1, 2));
    assert_eq!(Rational::new(-2, -4), Rational::new(1, 2));
    assert_eq!(Rational::new(0, 5), Rational::zero());
    assert_eq!(Rational::new(5, 0), Rational::positive_infinity());
}

#[test]
fn test_add() {
    let a = Rational::new(1, 2);
    let b = Rational::new(1, 3);
    assert_eq!(a + &b, Rational::new(5, 6));
    assert_eq!(a + 1, Rational::new(3, 2));
    assert_eq!(&a + &b, Rational::new(5, 6));
    assert_eq!(&a + 1, Rational::new(3, 2));
    assert_eq!(1 + &a, Rational::new(3, 2));
    assert_eq!(1 + a, Rational::new(3, 2));
}

#[test]
fn test_add_assign() {
    let mut a = Rational::new(1, 2);
    a.add_assign(&Rational::new(1, 3));
    assert_eq!(a, Rational::new(5, 6));

    let mut b = Rational::new(1, 2);
    b.add_assign_int(1);
    assert_eq!(b, Rational::new(3, 2));
}

#[test]
fn test_sub() {
    let a = Rational::new(1, 2);
    let b = Rational::new(1, 3);
    assert_eq!(a - &b, Rational::new(1, 6));
    assert_eq!(a - 1, Rational::new(-1, 2));
    assert_eq!(&a - &b, Rational::new(1, 6));
    assert_eq!(&a - 1, Rational::new(-1, 2));
    assert_eq!(1 - &a, Rational::new(1, 2));
    assert_eq!(1 - a, Rational::new(1, 2));
}

#[test]
fn test_sub_assign() {
    let mut a = Rational::new(1, 2);
    a.sub_assign(&Rational::new(1, 3));
    assert_eq!(a, Rational::new(1, 6));

    let mut b = Rational::new(1, 2);
    b.sub_assign_int(1);
    assert_eq!(b, Rational::new(-1, 2));
}

#[test]
fn test_mul() {
    let a = Rational::new(1, 2);
    let b = Rational::new(2, 3);
    assert_eq!(a * &b, Rational::new(1, 3));
    assert_eq!(a * 2, Rational::from_integer(1));
    assert_eq!(&a * &b, Rational::new(1, 3));
    assert_eq!(&a * 2, Rational::from_integer(1));
    assert_eq!(2 * &a, Rational::from_integer(1));
    assert_eq!(2 * a, Rational::from_integer(1));
}

#[test]
fn test_mul_assign() {
    let mut a = Rational::new(1, 2);
    a.mul_assign(&Rational::new(2, 3));
    assert_eq!(a, Rational::new(1, 3));

    let mut b = Rational::new(1, 2);
    b.mul_assign_int(2);
    assert_eq!(b, Rational::from_integer(1));
}

#[test]
fn test_div() {
    let a = Rational::new(1, 2);
    let b = Rational::new(2, 3);
    assert_eq!(a / &b, Rational::new(3, 4));
    assert_eq!(a / 2, Rational::new(1, 4));
    assert_eq!(&a / &b, Rational::new(3, 4));
    assert_eq!(&a / 2, Rational::new(1, 4));
    assert_eq!(2 / &a, Rational::from_integer(4));
    assert_eq!(2 / a, Rational::from_integer(4));
}

#[test]
fn test_div_assign() {
    let mut a = Rational::new(1, 2);
    a.div_assign(&Rational::new(2, 3));
    assert_eq!(a, Rational::new(3, 4));

    let mut b = Rational::new(1, 2);
    b.div_assign_int(2);
    assert_eq!(b, Rational::new(1, 4));
}

#[test]
fn rational_test_neg() {
    let a = Rational::new(1, 2);
    assert_eq!(-a, Rational::new(-1, 2));
    assert_eq!(-Rational::new(-1, 2), Rational::new(1, 2));
}

#[test]
fn rational_test_display() {
    assert_eq!(Rational::new(1, 2).to_string(), "1/2");
    assert_eq!(Rational::from_integer(2).to_string(), "2");
    assert_eq!(Rational::new(0, 5).to_string(), "0");
    assert_eq!(Rational::new(-1, 2).to_string(), "-1/2");
}

#[test]
fn test_comparison() {
    let a = Rational::new(1, 2);
    let b = Rational::new(1, 3);
    let c = Rational::new(1, 2);

    assert!(a > b);
    assert!(b < a);
    assert!(a >= b);
    assert!(b <= a);
    assert!(a >= c);
    assert!(a <= c);

    let d = Rational::new(4, 2);
    assert!(d == 2);
    assert!(d <= 2);
    assert!(d >= 2);
    assert!(d < 3);
    assert!(d > 1);

    let e = Rational::new(1, 2);
    assert!(e < 1);
    assert!(e > 0);
}

#[test]
fn test_infinity_arithmetic() {
    let inf = Rational::positive_infinity();
    let neg_inf = Rational::negative_infinity();
    let one = Rational::from_integer(1);

    assert_eq!(inf + one, inf);
    assert_eq!(neg_inf + one, neg_inf);
    assert_eq!(one + inf, inf);
    assert_eq!(one + neg_inf, neg_inf);
    assert_eq!(inf + inf, inf);
    assert_eq!(neg_inf + neg_inf, neg_inf);

    assert_eq!(inf - one, inf);
    assert_eq!(neg_inf - one, neg_inf);
    assert_eq!(one - inf, neg_inf);
    assert_eq!(one - neg_inf, inf);
    assert_eq!(inf - neg_inf, inf);
    assert_eq!(neg_inf - inf, neg_inf);
}

#[test]
fn rational_parts_are_in_lowest_terms() {
    let r = Rational::new(6, -4);
    assert_eq!(r.num(), -3);
    assert_eq!(r.den(), 2);
    let inf = Rational::new(-7, 0);
    assert_eq!(inf.num(), -1);
    assert_eq!(inf.den(), 0);
    assert_eq!(inf, Rational::negative_infinity());
}

#[test]
fn rational_checked_new_refuses_what_new_cannot_hold() {
    assert_eq!(Rational::checked_new(0, 0), None);
    assert_eq!(Rational::checked_new(i64::MIN, -1), None);
    assert_eq!(Rational::checked_new(1, i64::MIN), None);
    assert_eq!(Rational::checked_new(2, 4), Some(Rational::new(1, 2)));
    assert_eq!(Rational::checked_new(i64::MIN, 2), Some(Rational::new(i64::MIN / 2, 1)));
}

#[test]
fn rational_add_then_sub_gives_back() {
    let r = Rational::new(7, 12);
    let s = Rational::new(-5, 18);
    assert_eq!((r + &s) - &s, r);
    let inf = Rational::positive_infinity();
    assert_eq!((inf + &s) - &s, inf);
}

#[test]
fn rational_large_operands_reduce_before_they_are_stored() {
    let a = Rational::new(i64::MAX, 2);
    let b = Rational::new(2, i64::MAX);
    assert_eq!(a * &b, Rational::from_integer(1));
    let c = Rational::new(1, 3037000500);
    let d = Rational::new(-1, 3037000500);
    assert_eq!(c + &d, Rational::zero());
}

#[test]
fn rational_division_by_zero_is_infinite() {
    let a = Rational::new(-3, 4);
    assert_eq!(a / &Rational::zero(), Rational::negative_infinity());
    assert_eq!(a / &Rational::positive_infinity(), Rational::zero());
    assert_eq!(a / -2, Rational::new(3, 8));
}

#[test]
fn rational_order_of_infinities() {
    let inf = Rational::positive_infinity();
    let neg_inf = Rational::negative_infinity();
    let x = Rational::new(10, 3);
    assert!(neg_inf < inf);
    assert!(neg_inf < x);
    assert!(x < inf);
    assert!(!(inf < inf));
    assert!(inf > 1000);
    assert_eq!(Rational::from(5), Rational::from_integer(5));
}

#[test]
fn rational_display_of_infinities_and_integers() {
    assert_eq!(Rational::positive_infinity().to_string(), "∞");
    assert_eq!(Rational::negative_infinity().to_string(), "-∞");
    assert_eq!(Rational::from_integer(-120).to_string(), "-120");
    assert_eq!(Rational::new(i64::MIN, 3).to_string(), "-9223372036854775808/3");
}
