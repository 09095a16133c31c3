use riddle_core::LBool;
use riddle_core::Lit;

#[test]
fn test_new_and_fields() {
    let l = Lit::new(5, true);
    assert_eq!(l.var(), 5);
    assert_eq!(l.is_positive(), true);

    let l2 = Lit::new(10, false);
    assert_eq!(l2.var(), 10);
    assert_eq!(l2.is_positive(), false);
}

#[test]
fn lit_test_display() {
    let l1 = Lit::new(5, false);
    assert_eq!(l1.to_string(), "¬5");

    let l2 = Lit::new(5, true);
    assert_eq!(l2.to_string(), "5");
}

#[test]
fn test_not() {
    let l = Lit::new(5, true);
    let not_l = !l;
    assert_eq!(not_l.var(), 5);
    assert_eq!(not_l.is_positive(), false);

    let l2 = Lit::new(10, false);
    let not_l2 = !l2;
    assert_eq!(not_l2.var(), 10);
    assert_eq!(not_l2.is_positive(), true);

    assert_eq!(!(!l), l);
}

#[test]
fn test_ordering() {
    let l1 = Lit::new(5, false);
    let l2 = Lit::new(5, true);
    let l3 = Lit::new(6, false);

    assert!(l1 < l3);
    assert!(l2 < l3);

    assert!(l1 < l2);

    let l4 = Lit::new(5, false);
    assert!(l1 == l4);
    assert!(!(l1 < l4));
    assert!(!(l1 > l4));
}

#[test]
fn lit_double_negation_on_many() {
    for x in [0usize, 1, 7, 1000, usize::MAX] {
        for s in [false, true] {
            let l = Lit::new(x, s);
            assert_eq!(!!l, l);
            assert_ne!(!l, l);
        }
    }
}

#[test]
fn lit_order_is_strict_and_total() {
    let lits = [Lit::new(0, false), Lit::new(0, true), Lit::new(1, false), Lit::new(1, true)];
    for i in 0..lits.len() {
        for j in 0..lits.len() {
            assert_eq!(lits[i] < lits[j], i < j);
            assert_eq!(lits[i] > lits[j], i > j);
            assert_eq!(lits[i] == lits[j], i == j);
        }
    }
}

#[test]
fn lit_display_of_large_index() {
    assert_eq!(Lit::new(1234567890, true).to_string(), "1234567890");
    assert_eq!(Lit::new(0, false).to_string(), "¬0");
}

#[test]
fn lbool_default_and_names() {
    assert_eq!(LBool::default(), LBool::Undef);
    assert_eq!(LBool::True.name(), "True");
    assert_eq!(LBool::False.name(), "False");
    assert_eq!(LBool::Undef.name(), "Undef");
}
