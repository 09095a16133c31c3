use riddle_core::sat::solver::Solver;
use riddle_core::LBool;
use riddle_core::Lit;

#[test]
fn solver_test_add_var() {
    let mut solver = Solver::new();
    let v0 = solver.add_var();
    let v1 = solver.add_var();
    assert_eq!(v0, 0);
    assert_eq!(v1, 1);
    assert_eq!(solver.value(v0), &LBool::Undef);
}

#[test]
fn test_assignment_propagation() {
    let mut solver = Solver::new();
    let v0 = solver.add_var();
    let v1 = solver.add_var();

    solver.add_clause(&[Lit::new(v0, true), Lit::new(v1, true)]);

    let ret = solver.assert_lit(Lit::new(v0, false));
    assert!(ret, "Solver should be consistent");

    assert_eq!(solver.value(v0), &LBool::False);
    assert_eq!(solver.value(v1), &LBool::True);
}

#[test]
fn test_chain_propagation() {
    let mut solver = Solver::new();
    let v0 = solver.add_var();
    let v1 = solver.add_var();
    let v2 = solver.add_var();

    solver.add_clause(&[Lit::new(v0, false), Lit::new(v1, true)]);
    solver.add_clause(&[Lit::new(v1, false), Lit::new(v2, true)]);

    solver.assert_lit(Lit::new(v0, true));

    assert_eq!(solver.value(v0), &LBool::True);
    assert_eq!(solver.value(v1), &LBool::True);
    assert_eq!(solver.value(v2), &LBool::True);
}

#[test]
fn test_listener() {
    let mut solver = Solver::new();
    let v0 = solver.add_var();

    let listener = solver.add_listener(v0);
    assert!(solver.assert_lit(Lit::new(v0, true)));
    let notes = solver.take_notifications();
    assert_eq!(notes, vec![(listener, v0)]);
    for (_, var) in notes {
        assert_eq!(var, v0);
    }
}

#[test]
fn test_2wl_correctness() {
    let mut solver = Solver::new();
    let v0 = solver.add_var();
    let v1 = solver.add_var();
    let v2 = solver.add_var();
    let v3 = solver.add_var();

    solver.add_clause(&[Lit::new(v0, true), Lit::new(v1, true), Lit::new(v2, true), Lit::new(v3, true)]);

    assert!(solver.pos_clauses(v0).contains(&0));
    assert!(solver.pos_clauses(v1).contains(&0));
    assert!(!solver.pos_clauses(v2).contains(&0));
    assert!(!solver.pos_clauses(v3).contains(&0));

    solver.assert_lit(Lit::new(v1, false));
    assert!(solver.pos_clauses(v0).contains(&0));
    assert!(!solver.pos_clauses(v1).contains(&0));
    assert!(solver.pos_clauses(v2).contains(&0));
    assert!(!solver.pos_clauses(v3).contains(&0));

    solver.assert_lit(Lit::new(v2, false));
    assert!(solver.pos_clauses(v0).contains(&0));
    assert!(!solver.pos_clauses(v1).contains(&0));
    assert!(!solver.pos_clauses(v2).contains(&0));
    assert!(solver.pos_clauses(v3).contains(&0));

    solver.assert_lit(Lit::new(v3, false));
    assert_eq!(solver.value(v0), &LBool::True);
}

#[test]
fn test_2wl_lazy_update() {
    let mut solver = Solver::new();
    let v0 = solver.add_var();
    let v1 = solver.add_var();
    let v2 = solver.add_var();

    solver.add_clause(&[Lit::new(v0, true), Lit::new(v1, true), Lit::new(v2, true)]);

    assert!(solver.pos_clauses(v0).contains(&0));
    assert!(solver.pos_clauses(v1).contains(&0));

    solver.assert_lit(Lit::new(v0, true));
    assert!(solver.pos_clauses(v0).contains(&0));
    assert!(solver.pos_clauses(v1).contains(&0));

    solver.assert_lit(Lit::new(v1, false));
    assert!(solver.pos_clauses(v1).contains(&0));
    assert!(!solver.pos_clauses(v2).contains(&0));
}

#[test]
fn sat_empty_and_unit_clauses() {
    let mut solver = Solver::new();
    let v0 = solver.add_var();
    assert!(!solver.add_clause(&[]));
    assert!(solver.add_clause(&[Lit::new(v0, false)]));
    assert_eq!(solver.value(v0), &LBool::False);
    assert_eq!(solver.clause_count(), 0);
    assert!(!solver.add_clause(&[Lit::new(v0, true)]));
    assert!(solver.add_clause(&[Lit::new(v0, false), Lit::new(v0, false)]));
    assert_eq!(solver.clause_count(), 1);
    assert_eq!(solver.lit_value(&Lit::new(v0, false)), LBool::True);
    assert_eq!(solver.lit_value(&Lit::new(v0, true)), LBool::False);
}

#[test]
fn sat_watches_are_two_different_literals() {
    let mut solver = Solver::new();
    let a = solver.add_var();
    let b = solver.add_var();
    assert!(solver.add_clause(&[Lit::new(a, true), Lit::new(a, true), Lit::new(b, false)]));
    assert_eq!(
        solver.clause_lits(0),
        &vec![Lit::new(a, true), Lit::new(b, false), Lit::new(a, true)]
    );
    assert_eq!(solver.pos_clauses(a), &vec![0]);
    assert_eq!(solver.neg_clauses(b), &vec![0]);
    assert!(solver.neg_clauses(a).is_empty());
    assert!(solver.pos_clauses(b).is_empty());
    assert!(solver.assert_lit(Lit::new(b, true)));
    assert_eq!(solver.value(a), &LBool::True);
    assert_eq!(solver.reason_of(a), Some(0));
    assert_eq!(solver.reason_of(b), None);
}

#[test]
fn sat_conflict_is_recorded() {
    let mut solver = Solver::new();
    let a = solver.add_var();
    let b = solver.add_var();
    let c = solver.add_var();
    solver.add_clause(&[Lit::new(a, false), Lit::new(b, true)]);
    solver.add_clause(&[Lit::new(a, false), Lit::new(c, true)]);
    solver.add_clause(&[Lit::new(b, false), Lit::new(c, false)]);
    assert!(!solver.assert_lit(Lit::new(a, true)));
    let conflict = solver.conflict().expect("a falsified clause");
    for l in solver.clause_lits(conflict) {
        assert_eq!(solver.lit_value(l), LBool::False);
    }
    assert_eq!(conflict, 2);
    assert_eq!(solver.level_vars(), &vec![a, b, c]);
    assert_eq!(solver.reason_of(a), None);
    assert_eq!(solver.reason_of(b), Some(0));
    assert_eq!(solver.reason_of(c), Some(1));
    assert!(!solver.assert_lit(Lit::new(a, false)));
    assert!(solver.level_vars().is_empty());
    assert_eq!(solver.conflict(), None);

    solver.retract(a);
    assert_eq!(solver.value(a), &LBool::Undef);
    assert_eq!(solver.value(b), &LBool::Undef);
    assert_eq!(solver.value(c), &LBool::Undef);
    assert!(solver.assert_lit(Lit::new(a, false)));
    assert!(solver.assert_lit(Lit::new(b, true)));
    assert_eq!(solver.value(c), &LBool::False);
    assert_eq!(solver.reason_of(c), Some(2));
}

#[test]
fn sat_retract_clears_what_is_reached() {
    let mut solver = Solver::new();
    let v: Vec<usize> = (0..5).map(|_| solver.add_var()).collect();
    solver.add_clause(&[Lit::new(v[0], false), Lit::new(v[1], true)]);
    solver.add_clause(&[Lit::new(v[1], false), Lit::new(v[2], true)]);
    solver.add_clause(&[Lit::new(v[3], true), Lit::new(v[4], true)]);
    assert!(solver.assert_lit(Lit::new(v[0], true)));
    assert!(solver.assert_lit(Lit::new(v[3], false)));
    assert_eq!(solver.value(v[4]), &LBool::True);
    solver.retract(v[2]);
    assert_eq!(solver.value(v[0]), &LBool::Undef);
    assert_eq!(solver.value(v[1]), &LBool::Undef);
    assert_eq!(solver.value(v[2]), &LBool::Undef);
    assert_eq!(solver.reason_of(v[1]), None);
    assert_eq!(solver.value(v[3]), &LBool::False);
    assert_eq!(solver.value(v[4]), &LBool::True);
    assert_eq!(solver.reason_of(v[4]), Some(2));
}

#[test]
fn sat_notices_follow_the_assignments() {
    let mut solver = Solver::new();
    let a = solver.add_var();
    let b = solver.add_var();
    let on_b = solver.add_listener(b);
    let on_a = solver.add_listener(a);
    let on_b_too = solver.add_listener(b);
    solver.add_clause(&[Lit::new(a, false), Lit::new(b, true)]);
    assert!(solver.assert_lit(Lit::new(a, true)));
    assert_eq!(solver.level_vars(), &vec![a, b]);
    assert_eq!(solver.take_notifications(), vec![(on_a, a), (on_b, b), (on_b_too, b)]);
    assert!(solver.take_notifications().is_empty());
    assert!(solver.assert_lit(Lit::new(b, true)));
    assert!(solver.take_notifications().is_empty());
    assert_eq!(solver.var_count(), 2);
}

#[test]
fn sat_text_lists_variables_then_clauses() {
    let mut solver = Solver::new();
    let a = solver.add_var();
    let b = solver.add_var();
    let c = solver.add_var();
    solver.add_clause(&[Lit::new(a, true), Lit::new(b, false), Lit::new(c, true)]);
    solver.add_clause(&[Lit::new(b, true), Lit::new(c, false)]);
    solver.assert_lit(Lit::new(a, false));
    assert_eq!(
        solver.to_string(),
        "b0: False\nb1: Undef\nb2: Undef\n¬1 ∨ 2 ∨ 0\n1 ∨ ¬2\n"
    );
    assert_eq!(Solver::new().to_string(), "");
}

#[test]
fn sat_clause_of_one_repeated_literal_is_stored() {
    let mut solver = Solver::new();
    let a = solver.add_var();
    assert!(solver.add_clause(&[Lit::new(a, false)]));
    assert_eq!(solver.clause_count(), 0);
    assert!(solver.add_clause(&[Lit::new(a, true), Lit::new(a, true)]));
    assert_eq!(solver.value(a), &LBool::False);
    assert_eq!(solver.clause_count(), 1);
    assert_eq!(solver.clause_lits(0), &vec![Lit::new(a, true), Lit::new(a, true)]);
    assert_eq!(solver.pos_clauses(a), &vec![0]);
    assert!(solver.neg_clauses(a).is_empty());

    let mut other = Solver::new();
    let b = other.add_var();
    assert!(other.add_clause(&[Lit::new(b, true), Lit::new(b, true), Lit::new(b, true)]));
    assert_eq!(other.value(b), &LBool::Undef);
    assert_eq!(other.pos_clauses(b), &vec![0]);
    assert!(!other.assert_lit(Lit::new(b, false)));
    assert_eq!(other.conflict(), Some(0));
    assert_eq!(other.level_vars(), &vec![b]);
    assert_eq!(other.value(b), &LBool::False);
}

#[test]
fn sat_longer_clause_is_stored_whatever_its_literals_are_worth() {
    let mut solver = Solver::new();
    let a = solver.add_var();
    let b = solver.add_var();
    assert!(solver.assert_lit(Lit::new(a, false)));
    assert!(solver.assert_lit(Lit::new(b, false)));
    assert!(solver.add_clause(&[Lit::new(a, true), Lit::new(b, true)]));
    assert_eq!(solver.clause_count(), 1);
    assert_eq!(solver.value(a), &LBool::False);
    assert_eq!(solver.value(b), &LBool::False);
    assert_eq!(solver.conflict(), None);
}

#[test]
fn sat_nothing_is_guessed() {
    let mut solver = Solver::new();
    let a = solver.add_var();
    let b = solver.add_var();
    let c = solver.add_var();
    let d = solver.add_var();
    assert!(solver.add_clause(&[Lit::new(a, true), Lit::new(b, true), Lit::new(c, true)]));
    assert!(solver.add_clause(&[Lit::new(c, false), Lit::new(d, true)]));
    assert!(solver.assert_lit(Lit::new(a, false)));
    assert_eq!(solver.level_vars(), &vec![a]);
    assert_eq!(solver.value(b), &LBool::Undef);
    assert_eq!(solver.value(c), &LBool::Undef);
    assert_eq!(solver.value(d), &LBool::Undef);
    assert_eq!(solver.clause_lits(0), &vec![Lit::new(b, true), Lit::new(c, true), Lit::new(a, true)]);
    assert!(solver.pos_clauses(a).is_empty());
    assert_eq!(solver.pos_clauses(c), &vec![0]);

    assert!(solver.assert_lit(Lit::new(b, false)));
    assert_eq!(solver.level_vars(), &vec![b, c, d]);
    assert_eq!(solver.reason_of(b), None);
    assert_eq!(solver.reason_of(c), Some(0));
    assert_eq!(solver.reason_of(d), Some(1));
    assert_eq!(solver.value(c), &LBool::True);
    assert_eq!(solver.value(d), &LBool::True);
    assert_eq!(solver.clause_lits(0), &vec![Lit::new(c, true), Lit::new(b, true), Lit::new(a, true)]);
}
