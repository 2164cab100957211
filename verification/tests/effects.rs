use lazy_signals::framework::SignalGraph;
use lazy_signals::systems::effects::{effect_due, merge_subscribers, run_effects};
use lazy_signals::systems::init::{init_effects, init_memos};
use lazy_signals::value::{Handle, Reading, SignalError, Value};

type Memo = fn(Vec<Reading>) -> Reading;
type Log = Vec<(u8, Vec<Reading>)>;
type Effect = fn(Vec<Reading>, Log) -> Log;
type Graph = SignalGraph<Memo, Effect, Log>;

fn first(args: Vec<Reading>) -> Reading {
    args.into_iter().next().unwrap_or(None)
}

fn fail(args: Vec<Reading>) -> Reading {
    match &args[0] {
        Some(Ok(Value::Bool(true))) => Some(Err(SignalError::PropagatorError(3))),
        other => other.clone(),
    }
}

fn one(args: Vec<Reading>, mut log: Log) -> Log {
    log.push((1, args));
    log
}

fn two(args: Vec<Reading>, mut log: Log) -> Log {
    log.push((2, args));
    log
}

#[test]
fn effect_on_a_signal_runs_when_the_signal_changes() {
    let mut graph: Graph = SignalGraph::new();
    let a = graph.create_signal(Value::Int(1));
    let b = graph.create_signal(Value::Bool(true));
    let e = graph.create_effect(one, vec![a, b], Vec::new());
    let (log, _) = graph.tick(Vec::new());
    graph.send(a, Value::Int(2)).unwrap();
    let (log, report) = graph.tick(log);
    assert_eq!(report.fired, vec![e]);
    assert_eq!(log, vec![(1, vec![Some(Ok(Value::Int(2))), Some(Ok(Value::Bool(true)))])]);
    graph.send(a, Value::Int(3)).unwrap();
    graph.send(b, Value::Bool(false)).unwrap();
    let (log, both) = graph.tick(log);
    assert_eq!(both.fired, vec![e]);
    assert_eq!(log.len(), 2);
    assert_eq!(log[1], (1, vec![Some(Ok(Value::Int(3))), Some(Ok(Value::Bool(false)))]));
}

#[test]
fn trigger_edge_adds_nothing_to_the_tuple() {
    let mut graph: Graph = SignalGraph::new();
    let a = graph.create_signal(Value::Int(1));
    let t = graph.create_signal(Value::Unit);
    let e = graph.create_effect(one, vec![a], vec![t]);
    let (log, _) = graph.tick(Vec::new());
    graph.trigger(t, Value::Unit).unwrap();
    let (log, report) = graph.tick(log);
    assert_eq!(report.fired, vec![e]);
    assert_eq!(log, vec![(1, vec![Some(Ok(Value::Int(1)))])]);
}

#[test]
fn effects_run_in_ascending_order_each_once() {
    let mut graph: Graph = SignalGraph::new();
    let a = graph.create_signal(Value::Int(1));
    let b = graph.create_signal(Value::Int(1));
    let e2 = graph.create_effect(two, vec![a, b], vec![a]);
    let e1 = graph.create_effect(one, vec![b], vec![a]);
    let (log, _) = graph.tick(Vec::new());
    graph.send(a, Value::Int(2)).unwrap();
    graph.send(b, Value::Int(2)).unwrap();
    let (log, report) = graph.tick(log);
    assert_eq!(report.fired, vec![e2, e1]);
    let order: Vec<u8> = log.iter().map(|entry| entry.0).collect();
    assert_eq!(order, vec![2, 1]);
}

#[test]
fn effect_wired_in_a_tick_hears_nothing_in_that_tick() {
    let mut graph: Graph = SignalGraph::new();
    let s = graph.create_signal(Value::Int(1));
    let (log, _) = graph.tick(Vec::new());
    graph.send(s, Value::Int(2)).unwrap();
    let e = graph.create_effect(one, vec![s], Vec::new());
    let c = graph.create_computed(first, vec![s]);
    let (log, report) = graph.tick(log);
    assert_eq!(report.frontier, vec![s]);
    assert!(report.fired.is_empty());
    assert!(log.is_empty());
    assert_eq!(report.propagation.evaluated, vec![c]);
    let mut heard = graph.subscribers(s);
    heard.sort_by_key(|h| h.0);
    assert_eq!(heard, vec![e, c]);
    graph.send(s, Value::Int(3)).unwrap();
    let (log, next) = graph.tick(log);
    assert_eq!(next.fired, vec![e]);
    assert_eq!(next.propagation.evaluated, vec![c]);
    assert_eq!(log, vec![(1, vec![Some(Ok(Value::Int(3)))])]);
}

#[test]
fn wiring_stages_and_merging_shows() {
    let mut graph: Graph = SignalGraph::new();
    let s = graph.create_signal(Value::Int(1));
    let t = graph.create_signal(Value::Unit);
    let c = graph.create_computed(first, vec![s]);
    let e = graph.create_effect(one, vec![s], vec![t, Handle(50)]);
    init_memos(&mut graph);
    assert!(graph.subscribers(s).is_empty());
    init_effects(&mut graph);
    assert!(graph.subscribers(s).is_empty());
    assert!(graph.subscribers(t).is_empty());
    merge_subscribers(&mut graph);
    assert_eq!(graph.subscribers(s), vec![c, e]);
    assert_eq!(graph.subscribers(t), vec![e]);
    assert_eq!(graph.pending_edges(e, true), None);
    init_effects(&mut graph);
    merge_subscribers(&mut graph);
    assert_eq!(graph.subscribers(s), vec![c, e]);
}

#[test]
fn effect_receives_the_error_of_its_source() {
    let mut graph: Graph = SignalGraph::new();
    let a = graph.create_signal(Value::Bool(false));
    let b = graph.create_computed(fail, vec![a]);
    let e = graph.create_effect(one, vec![b], Vec::new());
    let (log, _) = graph.tick(Vec::new());
    graph.send(a, Value::Bool(true)).unwrap();
    let (log, report) = graph.tick(log);
    assert_eq!(report.fired, vec![e]);
    assert_eq!(log, vec![(1, vec![Some(Err(SignalError::PropagatorError(3)))])]);
}

#[test]
fn due_effects_are_those_with_a_changed_upstream() {
    let mut graph: Graph = SignalGraph::new();
    let a = graph.create_signal(Value::Int(1));
    let b = graph.create_signal(Value::Int(1));
    let ea = graph.create_effect(one, vec![a], Vec::new());
    let eb = graph.create_effect(two, Vec::new(), vec![b]);
    graph.tick(Vec::new());
    let none: Vec<Handle> = Vec::new();
    assert!(effect_due(&graph, &vec![a], &none, ea));
    assert!(!effect_due(&graph, &vec![a], &none, eb));
    assert!(effect_due(&graph, &none, &vec![b], eb));
    assert!(!effect_due(&graph, &vec![a, b], &none, a));
    assert!(!effect_due(&graph, &none, &none, ea));
    let (log, fired) = run_effects(&graph, &vec![b], &vec![a], Vec::new());
    assert_eq!(fired, vec![ea, eb]);
    assert_eq!(log, vec![(1, vec![Some(Ok(Value::Int(1)))]), (2, Vec::new())]);
    assert_eq!(graph.run_effect(a, vec![(9, Vec::new())]), vec![(9, Vec::new())]);
}

#[test]
fn removed_effect_no_longer_runs() {
    let mut graph: Graph = SignalGraph::new();
    let a = graph.create_signal(Value::Int(1));
    let e = graph.create_effect(one, vec![a], Vec::new());
    let (log, _) = graph.tick(Vec::new());
    graph.remove(e);
    graph.send(a, Value::Int(2)).unwrap();
    let (log, report) = graph.tick(log);
    assert_eq!(report.frontier, vec![a]);
    assert!(report.fired.is_empty());
    assert!(log.is_empty());
}
