use scope_chain::basics::five;
use scope_chain::scope::{BindingError, Evaluator};

#[test]
fn five_is_five() {
    assert_eq!(five(), 5);
}

#[test]
fn lookup_returns_last_declared_value() {
    let mut e = Evaluator::new();
    e.declare("a", 1, false);
    e.declare("b", 2, true);
    e.declare("c", 3, false);
    assert_eq!(e.lookup("a"), Ok(1));
    assert_eq!(e.lookup("b"), Ok(2));
    assert_eq!(e.lookup("c"), Ok(3));
}

#[test]
fn shadowing_in_same_scope() {
    let mut e = Evaluator::new();
    e.declare("z", 5, false);
    e.declare("z", 7, false);
    assert_eq!(e.lookup("z"), Ok(7));
}

#[test]
fn shadowed_binding_stays_hidden() {
    let mut e = Evaluator::new();
    e.declare("z", 5, true);
    e.declare("z", 7, false);
    assert_eq!(e.reassign("z", 8), Err(BindingError::ImmutableBinding));
    e.declare("other", 0, false);
    assert_eq!(e.lookup("z"), Ok(7));
}

#[test]
fn nested_scope_restoration() {
    let mut e = Evaluator::new();
    e.declare("z", 5, false);
    e.enter_scope();
    e.declare("z", 99, false);
    assert_eq!(e.lookup("z"), Ok(99));
    assert_eq!(e.exit_scope(), Ok(()));
    assert_eq!(e.lookup("z"), Ok(5));
}

#[test]
fn exit_scope_discards_inner_names() {
    let mut e = Evaluator::new();
    e.enter_scope();
    e.declare("w", 4, false);
    assert_eq!(e.depth(), 1);
    assert_eq!(e.exit_scope(), Ok(()));
    assert_eq!(e.depth(), 0);
    assert_eq!(e.lookup("w"), Err(BindingError::UnknownName));
}

#[test]
fn immutable_binding_refuses_reassign() {
    let mut e = Evaluator::new();
    e.declare("x", 5, false);
    assert_eq!(e.reassign("x", 6), Err(BindingError::ImmutableBinding));
    assert_eq!(e.lookup("x"), Ok(5));
}

#[test]
fn mutable_binding_takes_reassign() {
    let mut e = Evaluator::new();
    e.declare("y", 1, true);
    assert_eq!(e.reassign("y", 9), Ok(()));
    assert_eq!(e.lookup("y"), Ok(9));
}

#[test]
fn reassign_in_inner_scope_reaches_outer_binding() {
    let mut e = Evaluator::new();
    e.declare("y", 1, true);
    e.enter_scope();
    assert_eq!(e.reassign("y", 2), Ok(()));
    assert_eq!(e.exit_scope(), Ok(()));
    assert_eq!(e.lookup("y"), Ok(2));
}

#[test]
fn exit_scope_at_root_underflows() {
    let mut e = Evaluator::new();
    assert_eq!(e.exit_scope(), Err(BindingError::ScopeUnderflow));
    e.declare("k", 3, false);
    e.enter_scope();
    assert_eq!(e.exit_scope(), Ok(()));
    assert_eq!(e.exit_scope(), Err(BindingError::ScopeUnderflow));
    assert_eq!(e.lookup("k"), Ok(3));
}

#[test]
fn unknown_name_errors() {
    let mut e = Evaluator::new();
    assert_eq!(e.lookup("nope"), Err(BindingError::UnknownName));
    assert_eq!(e.reassign("nope", 1), Err(BindingError::UnknownName));
    assert_eq!(e.depth(), 0);
}

#[test]
fn extreme_values_round_trip() {
    let mut e = Evaluator::new();
    e.declare("lo", i64::MIN, true);
    e.declare("hi", i64::MAX, false);
    assert_eq!(e.reassign("lo", i64::MAX), Ok(()));
    assert_eq!(e.lookup("lo"), Ok(i64::MAX));
    assert_eq!(e.lookup("hi"), Ok(i64::MAX));
}
