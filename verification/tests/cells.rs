use lazy_signals::lazy_immutable::LazySignalsState;
use lazy_signals::value::{copy_reading, holds_handle, readings_agree, Handle, Reading, SignalError, Value};

fn whole(i: i64) -> Reading {
    Some(Ok(Value::Int(i)))
}

#[test]
fn new_cell_holds_its_initial_value() {
    let cell = LazySignalsState::new(whole(7));
    assert_eq!(cell.read(), whole(7));
    assert_eq!(cell.value(), Ok(Value::Int(7)));
    assert!(!cell.has_pending());
    assert!(cell.subscribers().is_empty());
}

#[test]
fn empty_cell_reads_as_uninitialized() {
    let cell = LazySignalsState::new(None);
    assert_eq!(cell.read(), None);
    assert_eq!(cell.value(), Err(SignalError::ReadBeforeInitialized));
}

#[test]
fn cell_with_error_gives_the_error() {
    let cell = LazySignalsState::new(Some(Err(SignalError::PropagatorError(9))));
    assert_eq!(cell.value(), Err(SignalError::PropagatorError(9)));
}

#[test]
fn staging_leaves_the_committed_value() {
    let mut cell = LazySignalsState::new(whole(1));
    cell.merge_next(whole(2), false);
    assert!(cell.has_pending());
    assert_eq!(cell.read(), whole(1));
    assert!(cell.commit());
    assert_eq!(cell.read(), whole(2));
    assert!(!cell.has_pending());
}

#[test]
fn commit_without_staged_value_does_nothing() {
    let mut cell = LazySignalsState::new(whole(1));
    assert!(!cell.commit());
    assert_eq!(cell.read(), whole(1));
    cell.merge_next(None, true);
    assert!(!cell.commit());
    assert_eq!(cell.read(), whole(1));
}

#[test]
fn equal_value_is_no_change_unless_forced() {
    let mut cell = LazySignalsState::new(whole(5));
    cell.merge_next(whole(5), false);
    assert!(!cell.commit());
    assert!(!cell.has_pending());
    cell.merge_next(whole(5), true);
    assert!(cell.commit());
    assert_eq!(cell.read(), whole(5));
    cell.merge_next(whole(5), false);
    assert!(!cell.commit());
}

#[test]
fn second_send_overwrites_the_first() {
    let mut cell = LazySignalsState::new(whole(0));
    cell.merge_next(whole(1), false);
    cell.merge_next(whole(2), false);
    assert!(cell.commit());
    assert_eq!(cell.read(), whole(2));
    cell.merge_next(whole(3), false);
    cell.merge_next(whole(2), false);
    assert!(!cell.commit());
    assert_eq!(cell.read(), whole(2));
}

#[test]
fn error_never_equals_an_error() {
    let e: Reading = Some(Err(SignalError::PropagatorError(1)));
    let mut cell = LazySignalsState::new(copy_reading(&e));
    cell.merge_next(copy_reading(&e), false);
    assert!(cell.commit());
    assert_eq!(cell.read(), e);
    assert!(!readings_agree(&e, &e));
    assert!(!readings_agree(&None, &None));
    assert!(readings_agree(&whole(4), &whole(4)));
    assert!(!readings_agree(&whole(4), &whole(5)));
    assert!(!readings_agree(&whole(1), &Some(Ok(Value::Bool(true)))));
}

#[test]
fn values_compare_by_content() {
    assert!(Value::Unit.same(&Value::Unit));
    assert!(Value::Text("a".to_string()).same(&Value::Text("a".to_string())));
    assert!(!Value::Text("a".to_string()).same(&Value::Text("b".to_string())));
    assert!(!Value::Int(0).same(&Value::Bool(false)));
    assert_eq!(Value::Text("xy".to_string()).duplicate(), Value::Text("xy".to_string()));
    assert_eq!(Value::Int(-3).duplicate(), Value::Int(-3));
}

#[test]
fn subscriber_is_staged_until_merged() {
    let mut cell = LazySignalsState::new(whole(0));
    cell.register_subscriber(Handle(4));
    cell.register_subscriber(Handle(4));
    cell.register_subscriber(Handle(2));
    assert!(cell.subscribers().is_empty());
    cell.merge_subscribers();
    assert_eq!(cell.subscribers(), &vec![Handle(4), Handle(2)]);
    cell.merge_subscribers();
    assert_eq!(cell.subscribers(), &vec![Handle(4), Handle(2)]);
    cell.register_subscriber(Handle(2));
    cell.register_subscriber(Handle(9));
    cell.merge_subscribers();
    assert_eq!(cell.subscribers(), &vec![Handle(4), Handle(2), Handle(9)]);
}

#[test]
fn handle_lists_are_searched() {
    let list = vec![Handle(3), Handle(1)];
    assert!(holds_handle(&list, Handle(1)));
    assert!(!holds_handle(&list, Handle(2)));
    assert!(!holds_handle(&Vec::new(), Handle(0)));
}
