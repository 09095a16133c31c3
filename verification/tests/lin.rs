use riddle_core::Lin;
use riddle_core::Rational;
use std::collections::HashMap;

#[test]
fn test_new_and_display() {
    let mut vars = HashMap::new();
    vars.insert(1, Rational::new(1, 2));
    vars.insert(2, Rational::new(-3, 4));
    let known_term = Rational::new(5, 1);
    let lin = Lin::new(vars, known_term);

    let s = lin.to_string();
    assert!(s.contains("1/2*1") || s.contains("-3/4*2"));
    assert!(s.contains("5"));
}

#[test]
fn test_add_lin() {
    let mut vars1 = HashMap::new();
    vars1.insert(1, Rational::new(1, 1));
    let lin1 = Lin::new(vars1, Rational::new(2, 1));

    let mut vars2 = HashMap::new();
    vars2.insert(1, Rational::new(2, 1));
    vars2.insert(2, Rational::new(3, 1));
    let lin2 = Lin::new(vars2, Rational::new(4, 1));

    let sum = lin1 + &lin2;

    let mut expected_vars = HashMap::new();
    expected_vars.insert(1, Rational::new(3, 1));
    expected_vars.insert(2, Rational::new(3, 1));
    let expected = Lin::new(expected_vars, Rational::new(6, 1));

    assert_eq!(sum, expected);
}

#[test]
fn test_add_rational() {
    let mut vars = HashMap::new();
    vars.insert(1, Rational::new(1, 1));
    let lin = Lin::new(vars.clone(), Rational::new(2, 1));
    let rat = Rational::new(3, 1);

    let sum = lin + &rat;
    let expected = Lin::new(vars, Rational::new(5, 1));

    assert_eq!(sum, expected);
}

#[test]
fn test_sub_lin() {
    let mut vars1 = HashMap::new();
    vars1.insert(1, Rational::new(1, 1));
    let lin1 = Lin::new(vars1, Rational::new(2, 1));

    let mut vars2 = HashMap::new();
    vars2.insert(1, Rational::new(2, 1));
    vars2.insert(2, Rational::new(3, 1));
    let lin2 = Lin::new(vars2, Rational::new(4, 1));

    let diff = lin1 - &lin2;

    let mut expected_vars = HashMap::new();
    expected_vars.insert(1, Rational::new(-1, 1));
    expected_vars.insert(2, Rational::new(-3, 1));
    let expected = Lin::new(expected_vars, Rational::new(-2, 1));

    assert_eq!(diff, expected);
}

#[test]
fn test_sub_rational() {
    let mut vars = HashMap::new();
    vars.insert(1, Rational::new(1, 1));
    let lin = Lin::new(vars.clone(), Rational::new(2, 1));
    let rat = Rational::new(3, 1);

    let diff = lin - &rat;
    let expected = Lin::new(vars, Rational::new(-1, 1));

    assert_eq!(diff, expected);
}

#[test]
fn test_mul_rational() {
    let mut vars = HashMap::new();
    vars.insert(1, Rational::new(1, 2));
    let lin = Lin::new(vars, Rational::new(3, 4));
    let rat = Rational::new(2, 1);

    let product = lin * &rat;

    let mut expected_vars = HashMap::new();
    expected_vars.insert(1, Rational::new(1, 1));
    let expected = Lin::new(expected_vars, Rational::new(3, 2));

    assert_eq!(product, expected);
}

#[test]
fn test_div_rational() {
    let mut vars = HashMap::new();
    vars.insert(1, Rational::new(1, 1));
    let lin = Lin::new(vars, Rational::new(3, 2));
    let rat = Rational::new(2, 1);

    let quotient = lin / &rat;

    let mut expected_vars = HashMap::new();
    expected_vars.insert(1, Rational::new(1, 2));
    let expected = Lin::new(expected_vars, Rational::new(3, 4));

    assert_eq!(quotient, expected);
}

#[test]
fn lin_test_neg() {
    let mut vars = HashMap::new();
    vars.insert(1, Rational::new(1, 2));
    let lin = Lin::new(vars, Rational::new(-3, 4));

    let neg_lin = -lin;

    let mut expected_vars = HashMap::new();
    expected_vars.insert(1, Rational::new(-1, 2));
    let expected = Lin::new(expected_vars, Rational::new(3, 4));

    assert_eq!(neg_lin, expected);
}

fn form(terms: &[(usize, i64, i64)], known: i64) -> Lin {
    let mut vars = HashMap::new();
    for (v, n, d) in terms {
        vars.insert(*v, Rational::new(*n, *d));
    }
    Lin::new(vars, Rational::from_integer(known))
}

#[test]
fn lin_display_is_in_order_of_the_variables() {
    let lin = form(&[(2, -3, 4), (1, 1, 2), (7, 2, 1)], 5);
    assert_eq!(lin.to_string(), "1/2*1-3/4*2+2*7+5");
    assert_eq!(form(&[], -3).to_string(), "-3");
    assert_eq!(form(&[(0, -1, 1)], -2).to_string(), "-1*0-2");
    assert_eq!(Lin::variable(3).to_string(), "1*3+0");
}

#[test]
fn lin_drops_coefficients_that_become_zero() {
    let a = form(&[(1, 1, 2), (2, 3, 1)], 1);
    let b = form(&[(1, -1, 2), (3, 1, 1)], 0);
    let sum = a + &b;
    assert_eq!(sum.len(), 2);
    assert!(!sum.has(1));
    assert_eq!(sum.coefficient(1), Rational::zero());
    assert_eq!(sum.coefficient(2), Rational::from_integer(3));
    assert_eq!(sum, form(&[(2, 3, 1), (3, 1, 1)], 1));

    let zeroed = form(&[(1, 5, 1)], 2) * &Rational::zero();
    assert_eq!(zeroed.len(), 0);
    assert_eq!(zeroed, form(&[], 0));

    let with_zero = form(&[(4, 0, 1), (5, 1, 1)], 0);
    assert_eq!(with_zero.len(), 1);
}

#[test]
fn lin_substitution_takes_the_variable_out() {
    // 2*x1 + 3*x2 + 1, with x1 := 1/2*x2 - x3 + 4
    let mut l = form(&[(1, 2, 1), (2, 3, 1)], 1);
    let row = form(&[(2, 1, 2), (3, -1, 1)], 4);
    l.substitute(1, &row);
    assert_eq!(l, form(&[(2, 4, 1), (3, -2, 1)], 9));

    // a variable that does not occur
    let mut m = form(&[(2, 3, 1)], 1);
    m.substitute(9, &row);
    assert_eq!(m, form(&[(2, 3, 1)], 1));
}

#[test]
fn lin_substituting_a_variable_by_itself_changes_nothing() {
    let before = form(&[(1, 2, 3), (2, -3, 1), (8, 1, 7)], 4);
    for v in [1usize, 2, 8] {
        let mut l = before.clone();
        l.substitute(v, &Lin::variable(v));
        assert_eq!(l, before);
    }
}

#[test]
fn lin_set_coefficient_keeps_order() {
    let mut l = form(&[(5, 1, 1)], 0);
    l.set_coefficient(2, Rational::from_integer(7));
    l.set_coefficient(9, Rational::from_integer(-1));
    l.set_coefficient(5, Rational::zero());
    assert_eq!(l.len(), 2);
    assert_eq!(l.var_at(0), 2);
    assert_eq!(l.var_at(1), 9);
    assert_eq!(l.coeff_at(1), Rational::from_integer(-1));
    assert_eq!(l.known_term(), Rational::zero());
    assert!(l.vars_below(10));
    assert!(!l.vars_below(9));
    assert_eq!(l.linear_part(), l);
}
