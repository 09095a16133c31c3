use riddle_core::lin::var::Var;
use riddle_core::InfRational;
use riddle_core::Rational;

#[test]
fn test_new_var() {
    let v = Var::new();
    assert_eq!(v.value(), InfRational::from_integer(0));
    assert_eq!(v.lb(), InfRational::negative_infinity());
    assert_eq!(v.ub(), InfRational::positive_infinity());
}

#[test]
fn test_lb() {
    let mut v = Var::new();
    let val1 = InfRational::from_integer(10);
    let val2 = InfRational::from_integer(20);

    v.set_lb(val1, Some(1));
    assert_eq!(v.lb(), val1);

    v.set_lb(val2, Some(2));
    assert_eq!(v.lb(), val2);

    v.unset_lb(val1, 1);
    assert_eq!(v.lb(), val2);

    v.unset_lb(val2, 2);
    assert_eq!(v.lb(), InfRational::negative_infinity());
}

#[test]
fn test_ub() {
    let mut v = Var::new();
    let val1 = InfRational::from_integer(10);
    let val2 = InfRational::from_integer(20);

    v.set_ub(val2, Some(1));
    assert_eq!(v.ub(), val2);

    v.set_ub(val1, Some(2));
    assert_eq!(v.ub(), val1);

    v.unset_ub(val2, 1);
    assert_eq!(v.ub(), val1);

    v.unset_ub(val1, 2);
    assert_eq!(v.ub(), InfRational::positive_infinity());
}

#[test]
fn var_bound_that_crosses_is_a_conflict() {
    let mut v = Var::new();
    assert!(v.set_ub(InfRational::from_integer(10), Some(1)));
    assert!(!v.set_lb(InfRational::from_integer(11), Some(2)));
    assert_eq!(v.lb(), InfRational::negative_infinity());
    assert!(v.set_lb(InfRational::from_integer(10), Some(2)));
    assert!(!v.set_ub(InfRational::from_integer(9), Some(3)));
    assert_eq!(v.ub(), InfRational::from_integer(10));
    assert_eq!(v.get_lb(), Some(InfRational::from_integer(10)));
}

#[test]
fn var_bound_goes_with_its_last_reason() {
    let mut v = Var::new();
    let ten = InfRational::from_integer(10);
    v.set_lb(ten, Some(1));
    v.set_lb(ten, Some(2));
    v.set_lb(ten, Some(2));
    v.unset_lb(ten, 1);
    assert_eq!(v.lb(), ten);
    v.unset_lb(ten, 7);
    assert_eq!(v.lb(), ten);
    v.unset_lb(ten, 2);
    assert_eq!(v.get_lb(), None);
    v.unset_lb(ten, 2);
    assert_eq!(v.lb(), InfRational::negative_infinity());
}

#[test]
fn var_active_lower_bound_is_the_greatest_key() {
    let mut v = Var::new();
    for (k, r) in [(5, 1), (30, 2), (-4, 3), (12, 4)] {
        v.set_lb(InfRational::from_integer(k), Some(r));
    }
    assert_eq!(v.lb(), InfRational::from_integer(30));
    v.unset_lb(InfRational::from_integer(30), 2);
    assert_eq!(v.lb(), InfRational::from_integer(12));
    v.unset_lb(InfRational::from_integer(-4), 3);
    assert_eq!(v.lb(), InfRational::from_integer(12));
    v.unset_lb(InfRational::from_integer(12), 4);
    assert_eq!(v.lb(), InfRational::from_integer(5));
}

#[test]
fn var_bound_without_reason_drops_the_weaker_ones() {
    let mut v = Var::new();
    for (k, r) in [(5, 1), (30, 2), (12, 4)] {
        v.set_lb(InfRational::from_integer(k), Some(r));
        v.set_ub(InfRational::from_integer(k + 100), Some(r));
    }
    assert!(v.set_lb(InfRational::from_integer(12), None));
    v.unset_lb(InfRational::from_integer(30), 2);
    assert_eq!(v.lb(), InfRational::from_integer(12));
    v.unset_lb(InfRational::from_integer(12), 4);
    assert_eq!(v.get_lb(), None);

    assert!(v.set_ub(InfRational::from_integer(112), None));
    assert_eq!(v.ub(), InfRational::from_integer(105));
    v.unset_ub(InfRational::from_integer(105), 1);
    assert_eq!(v.ub(), InfRational::from_integer(112));
    v.unset_ub(InfRational::from_integer(112), 4);
    assert_eq!(v.get_ub(), None);
}

#[test]
fn var_strict_bounds_use_epsilon() {
    let mut v = Var::new();
    let below_ten = InfRational::new(Rational::from_integer(10), Rational::from_integer(-1));
    assert!(v.set_ub(below_ten, Some(1)));
    assert!(!v.set_lb(InfRational::from_integer(10), Some(2)));
    assert!(v.set_lb(below_ten, Some(2)));
    assert_eq!(v.to_string(), "0 [10 + -1ε, 10 + -1ε]");
    assert_eq!(v.get_value(), InfRational::zero());
}
