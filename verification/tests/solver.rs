use riddle_core::lin::solver::Solver as LinSolver;
use riddle_core::riddle::env::Component;
use riddle_core::riddle::env::Env;
use riddle_core::riddle::kind::AnyKind;
use riddle_core::riddle::kind::BoolKind;
use riddle_core::riddle::kind::ComponentKind;
use riddle_core::riddle::kind::Kind;
use riddle_core::riddle::objects::BoolObject;
use riddle_core::riddle::objects::Object;
use riddle_core::riddle::registry::Core;
use riddle_core::riddle::scope::Field;
use riddle_core::riddle::scope::Scope;
use riddle_core::InfRational;
use riddle_core::LBool;
use riddle_core::Lin;
use riddle_core::Lit;
use riddle_core::Rational;
use riddle_core::RiddleError;
use riddle_core::Solver;
use std::collections::HashMap;

#[test]
fn test_solver() {
    let mut solver = Solver::new();
    let bool_obj = solver.new_bool();
    let int_obj = solver.new_int();
    let real_obj = solver.new_real();

    assert_eq!(solver.bool_val(&bool_obj), LBool::Undef);
    assert_eq!(solver.int_val(&int_obj), InfRational::from_integer(0));
    assert_eq!(solver.real_val(&real_obj), InfRational::from_integer(0));
}

#[test]
fn solver_arithmetic_join() {
    let mut solver = Solver::new();
    let x = Object::Int(solver.new_int());
    let y = Object::Int(solver.new_int());
    let z = Object::Real(solver.new_real());
    let b = Object::Bool(solver.new_bool());

    assert!(matches!(solver.new_sum(&vec![x, y]), Ok(Object::Int(_))));

    let x = Object::Int(solver.new_int());
    assert!(matches!(solver.new_sum(&vec![x, z]), Ok(Object::Real(_))));

    let x = Object::Int(solver.new_int());
    match solver.new_sum(&vec![x, b]) {
        Err(RiddleError::TypeError(msg)) => {
            assert_eq!(msg, "Invalid term types in arithmetic operation")
        }
        Ok(_) => panic!("a Boolean term is no number"),
    }
    assert!(matches!(solver.new_sum(&vec![]), Ok(Object::Int(_))));
}

#[test]
fn solver_sum_and_difference_of_forms() {
    let mut solver = Solver::new();
    let x = solver.new_int();
    let y = solver.new_real();
    let expected_sum = Lin::variable(0) + &Lin::variable(1);
    let expected_diff = Lin::variable(0) - &Lin::variable(1);
    let terms = vec![Object::Int(x), Object::Real(y)];
    match solver.new_sum(&terms) {
        Ok(Object::Real(o)) => assert_eq!(o.lin(), &expected_sum),
        _ => panic!("a real sum"),
    }
    match solver.new_sub(&terms) {
        Ok(Object::Real(o)) => {
            assert_eq!(o.lin(), &expected_diff);
            assert_eq!(o.lin().to_string(), "1*0-1*1+0");
        }
        _ => panic!("a real difference"),
    }
    let own = vec![Object::Int(solver.new_int())];
    match solver.new_sub(&own) {
        Ok(Object::Int(o)) => assert_eq!(o.lin(), &Lin::variable(2)),
        _ => panic!("an integer"),
    }
}

#[test]
fn solver_new_objects_wrap_fresh_variables() {
    let mut solver = Solver::new();
    let a = solver.new_bool();
    let b = solver.new_bool();
    assert_eq!(a.lit(), Lit::new(0, true));
    assert_eq!(b.lit(), Lit::new(1, true));
    assert_eq!(solver.sat().var_count(), 2);
    assert_eq!(solver.lin().var_count(), 0);
    assert_eq!(solver.ac().var_count(), 0);
    assert_eq!(Object::Bool(BoolObject::new(Lit::new(4, false))).class_name(), "bool");
    assert_eq!(Object::Int(solver.new_int()).class_name(), "int");
    assert_eq!(Object::Real(solver.new_real()).class_name(), "real");
}

#[test]
fn registry_knows_the_built_in_kinds() {
    let mut core = Core::new();
    assert_eq!(core.kind("bool").map(|k| k.name()), Ok("bool".to_string()));
    assert_eq!(core.kind("int").map(|k| k.name()), Ok("int".to_string()));
    assert_eq!(core.kind("real").map(|k| k.name()), Ok("real".to_string()));
    assert_eq!(core.kind("Point").err(), Some("Kind 'Point' not found".to_string()));

    let mut point = ComponentKind::new("Point".to_string());
    point.add_field(Field::new("int".to_string(), "x"));
    point.add_field(Field::new("real".to_string(), "y"));
    point.add_parent("Shape".to_string());
    assert_eq!(point.field("y").map(|f| f.component_type().clone()), Ok("real".to_string()));
    assert_eq!(point.field("x").map(|f| f.name().to_string()), Ok("x".to_string()));
    assert_eq!(point.field("z").err(), Some("Field 'z' not found".to_string()));
    core.add_kind(AnyKind::Component(point));
    assert!(matches!(core.kind("Point"), Ok(AnyKind::Component(_))));
    core.add_kind(AnyKind::Component(ComponentKind::new("Point".to_string())));
    match core.kind("Point") {
        Ok(AnyKind::Component(k)) => assert!(k.field("x").is_err()),
        _ => panic!("the kind that was registered last"),
    }
    assert_eq!(BoolKind::new().name(), "bool");

    core.add_field(Field::new("bool".to_string(), "flag"));
    assert_eq!(core.field("flag").map(|f| f.component_type().clone()), Ok("bool".to_string()));
    assert_eq!(core.field("none").err(), Some("Field 'none' not found".to_string()));

    let mut solver = Solver::new();
    solver.add_class(AnyKind::Component(ComponentKind::new("Robot".to_string())));
    assert!(solver.kinds().kind("Robot").is_ok());
}

#[test]
fn component_items_are_found_by_name() {
    let mut solver = Solver::new();
    let items = vec![
        ("on".to_string(), Object::Bool(solver.new_bool())),
        ("x".to_string(), Object::Int(solver.new_int())),
        ("on".to_string(), Object::Real(solver.new_real())),
    ];
    let c = Component::new("Point".to_string(), items);
    assert_eq!(c.get("on"), Ok(0));
    assert_eq!(c.get("x"), Ok(1));
    assert!(matches!(c.item_at(1), Object::Int(_)));
    assert_eq!(c.get("y"), Err("Item 'y' not found".to_string()));
    assert_eq!(c.kind_name(), "Point");
    assert_eq!(Object::Component(c).class_name(), "Point");
}

fn form(terms: &[(usize, i64, i64)], known: i64) -> Lin {
    let mut vars = HashMap::new();
    for (v, n, d) in terms {
        vars.insert(*v, Rational::new(*n, *d));
    }
    Lin::new(vars, Rational::from_integer(known))
}

fn eps(rat: i64, inf: i64) -> InfRational {
    InfRational::new(Rational::from_integer(rat), Rational::from_integer(inf))
}

#[test]
fn lin_solver_bound_ledger_scenario() {
    let mut s = LinSolver::new();
    let v = s.new_var();
    assert!(s.set_lb(v, InfRational::from_integer(10), Some(1)));
    assert!(s.set_lb(v, InfRational::from_integer(20), Some(2)));
    assert_eq!(s.lb(v), InfRational::from_integer(20));
    s.unset_lb(v, InfRational::from_integer(10), 1);
    assert_eq!(s.lb(v), InfRational::from_integer(20));
    s.unset_lb(v, InfRational::from_integer(20), 2);
    assert_eq!(s.lb(v), InfRational::negative_infinity());
    assert_eq!(s.ub(v), InfRational::positive_infinity());
    assert_eq!(s.value(v), InfRational::zero());
}

#[test]
fn lin_solver_bounds_of_forms() {
    let mut s = LinSolver::new();
    let x = s.new_var();
    let y = s.new_var();
    s.set_lb(x, InfRational::from_integer(1), Some(1));
    s.set_ub(x, InfRational::from_integer(4), Some(1));
    s.set_lb(y, InfRational::from_integer(-2), Some(2));
    s.set_ub(y, eps(3, -1), Some(2));
    // 2x - 3y + 1
    let l = form(&[(x, 2, 1), (y, -3, 1)], 1);
    assert_eq!(s.lb_lin(&l), eps(2 * 1 - 3 * 3 + 1, 3));
    assert_eq!(s.ub_lin(&l), eps(2 * 4 + 3 * 2 + 1, 0));
    assert_eq!(s.lin_val(&l), InfRational::from_integer(1));

    let z = s.new_var();
    let open = form(&[(x, 1, 1), (z, 1, 1)], 0);
    assert_eq!(s.lb_lin(&open), InfRational::negative_infinity());
    assert_eq!(s.ub_lin(&open), InfRational::positive_infinity());
}

#[test]
fn lin_solver_new_lt_bounds_one_variable() {
    let mut s = LinSolver::new();
    let x = s.new_var();
    // 2x <= 6
    assert!(s.new_lt(&form(&[(x, 2, 1)], 0), &form(&[], 6), false, Some(1)));
    assert_eq!(s.ub(x), InfRational::from_integer(3));
    // x > 1, as 1 - x < 0
    assert!(s.new_lt(&form(&[], 1), &form(&[(x, 1, 1)], 0), true, Some(2)));
    assert_eq!(s.lb(x), eps(1, 1));
    // x < 1 cannot be
    assert!(!s.new_lt(&form(&[(x, 1, 1)], 0), &form(&[], 1), true, Some(3)));
    assert_eq!(s.ub(x), InfRational::from_integer(3));
    // known inequalities
    assert!(s.new_lt(&form(&[(x, 1, 1)], 0), &form(&[(x, 1, 1)], 1), true, None));
    assert!(!s.new_lt(&form(&[(x, 1, 1)], 2), &form(&[(x, 1, 1)], 2), true, None));
    assert!(s.new_lt(&form(&[(x, 1, 1)], 2), &form(&[(x, 1, 1)], 2), false, None));
    assert_eq!(s.var_count(), 1);
}

#[test]
fn lin_solver_new_lt_makes_a_row_for_several_variables() {
    let mut s = LinSolver::new();
    let x = s.new_var();
    let y = s.new_var();
    // x + y <= 5
    assert!(s.new_lt(&form(&[(x, 1, 1), (y, 1, 1)], 0), &form(&[], 5), false, Some(1)));
    assert_eq!(s.var_count(), 3);
    let slack = 2;
    assert_eq!(s.ub(slack), InfRational::from_integer(5));
    assert_eq!(s.lb(x), InfRational::negative_infinity());
    // the slack is replaced by its row: slack - x <= 0 is y <= 0
    assert!(s.new_lt(&form(&[(slack, 1, 1)], 0), &form(&[(x, 1, 1)], 0), false, Some(2)));
    assert_eq!(s.var_count(), 3);
    assert_eq!(s.ub(y), InfRational::zero());
}

#[test]
fn lin_solver_text_lists_variables_then_rows() {
    let mut s = LinSolver::new();
    let x = s.new_var();
    let y = s.new_var();
    s.set_lb(x, InfRational::from_integer(1), Some(1));
    assert!(s.new_lt(&form(&[(x, 1, 1), (y, -2, 1)], 0), &form(&[], 5), true, Some(2)));
    assert_eq!(
        s.to_string(),
        "Variables:\n  x0: 0 [1, ∞]\n  x1: 0 [-∞, ∞]\n  x2: 0 [-∞, 5 + -1ε]\nTableau:\n  x2 = 1*0-2*1+0\n"
    );
}

#[test]
fn lin_solver_rows_are_listed_by_their_basic_variables() {
    let mut s = LinSolver::new();
    let x = s.new_var();
    let y = s.new_var();
    assert!(s.new_lt(&form(&[(x, 1, 1), (y, 1, 1)], 0), &form(&[], 5), false, Some(1)));
    let z = s.new_var();
    assert_eq!(z, 3);
    assert!(s.new_lt(&form(&[(x, 1, 1), (z, -1, 1)], 0), &form(&[], 3), false, Some(2)));
    assert_eq!(s.var_count(), 5);
    assert!(s
        .to_string()
        .ends_with("Tableau:\n  x2 = 1*0+1*1+0\n  x4 = 1*0-1*3+0\n"));
    // both rows are used when a form over the two basic variables is reduced
    assert!(s.new_lt(&form(&[(2, 1, 1), (4, 1, 1)], 0), &form(&[], 9), false, Some(3)));
    assert_eq!(s.var_count(), 6);
    assert!(s.to_string().ends_with("  x5 = 2*0+1*1-1*3+0\n"));
}
