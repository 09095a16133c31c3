use riddle_core::ac::solver::deliver;
use riddle_core::ac::solver::Listener;
use riddle_core::ac::solver::Solver;
use riddle_core::ac::solver::Value;
use riddle_core::ac::solver::Values;

struct TestValue(i64);

impl Value for TestValue {}

struct Recorder {
    seen: Vec<usize>,
}

impl Listener for Recorder {
    fn on_update(&mut self, var: usize) {
        self.seen.push(var);
    }
}

#[test]
fn ac_solver_test_add_var() {
    let mut values = Values::new();
    let mut solver = Solver::new();
    let v0 = values.add(TestValue(0));
    let v1 = values.add(TestValue(1));
    let domain = vec![v0, v1, v1];
    let var_id = solver.add_var(domain);
    assert_eq!(var_id, 0);
    assert_eq!(solver.var_count(), 1);
    assert_eq!(solver.domain(var_id).len(), 2);
    assert_eq!(values.get(v1).0, 1);
}

#[test]
fn ac_equal_contents_are_different_values() {
    let mut values = Values::new();
    let a = values.add(TestValue(7));
    let b = values.add(TestValue(7));
    assert_ne!(a, b);
    let mut solver = Solver::new();
    let var = solver.add_var(vec![a, b, a]);
    assert_eq!(solver.domain(var), vec![a, b]);
}

#[test]
fn ac_listeners_are_told_once_per_restriction() {
    let mut solver = Solver::new();
    let x = solver.add_var(vec![10, 11, 12]);
    let y = solver.add_var(vec![10]);
    let on_x = solver.add_listener(x);
    let on_y = solver.add_listener(y);
    let on_x_too = solver.add_listener(x);
    assert!(solver.remove(x, 11));
    assert!(!solver.remove(x, 11));
    assert!(!solver.remove(x, 99));
    assert!(solver.remove(y, 10));
    assert_eq!(solver.domain(x), vec![10, 12]);
    assert!(solver.domain(y).is_empty());
    let notes = solver.take_notifications();
    assert_eq!(notes, vec![(on_x, x), (on_x_too, x), (on_y, y)]);
    let mut listeners = vec![
        Recorder { seen: vec![] },
        Recorder { seen: vec![] },
        Recorder { seen: vec![] },
    ];
    deliver(&notes, &mut listeners);
    assert_eq!(listeners[on_x].seen, vec![x]);
    assert_eq!(listeners[on_y].seen, vec![y]);
    assert_eq!(listeners[on_x_too].seen, vec![x]);
    assert!(solver.take_notifications().is_empty());
}

#[test]
fn ac_deliver_calls_each_listener_in_the_order_of_the_notices() {
    let mut listeners = vec![Recorder { seen: vec![7] }, Recorder { seen: vec![] }];
    let notes = vec![(0, 3), (1, 4), (0, 4), (5, 3), (0, 3)];
    deliver(&notes, &mut listeners);
    assert_eq!(listeners[0].seen, vec![7, 3, 4, 3]);
    assert_eq!(listeners[1].seen, vec![4]);
    deliver(&Vec::new(), &mut listeners);
    assert_eq!(listeners[0].seen, vec![7, 3, 4, 3]);
}
