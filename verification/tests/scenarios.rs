use lazy_signals::framework::SignalGraph;
use lazy_signals::value::{Handle, Reading, Value};

type Memo = fn(Vec<Reading>) -> Reading;
type Log = Vec<Vec<Reading>>;
type Effect = fn(Vec<Reading>, Log) -> Log;
type Graph = SignalGraph<Memo, Effect, Log>;

fn text(s: &str) -> Reading {
    Some(Ok(Value::Text(s.to_string())))
}

fn yes_or_no(args: Vec<Reading>) -> Reading {
    match &args[0] {
        Some(Ok(Value::Bool(true))) => text("yes"),
        Some(Ok(Value::Bool(false))) => text("no"),
        Some(Err(e)) => Some(Err(*e)),
        _ => None,
    }
}

fn record(args: Vec<Reading>, mut log: Log) -> Log {
    log.push(args);
    log
}

#[test]
fn computed_follows_its_signal() {
    let mut graph: Graph = SignalGraph::new();
    let a = graph.create_signal(Value::Bool(false));
    let c = graph.create_computed(yes_or_no, vec![a]);
    assert_eq!(graph.read(c), None);
    let (log, first) = graph.tick(Vec::new());
    assert!(first.frontier.is_empty());
    assert_eq!(first.propagation.evaluated, vec![c]);
    assert_eq!(graph.read(c), text("no"));
    graph.send(a, Value::Bool(true)).unwrap();
    assert_eq!(graph.read(a), Some(Ok(Value::Bool(false))));
    let (log, report) = graph.tick(log);
    assert_eq!(report.frontier, vec![a]);
    assert_eq!(report.propagation.evaluated, vec![c]);
    assert_eq!(report.propagation.changed, vec![c]);
    assert_eq!(graph.read(a), Some(Ok(Value::Bool(true))));
    assert_eq!(graph.read(c), text("yes"));
    assert!(log.is_empty());
}

#[test]
fn effect_runs_once_with_the_new_value() {
    let mut graph: Graph = SignalGraph::new();
    let a = graph.create_signal(Value::Bool(false));
    let c = graph.create_computed(yes_or_no, vec![a]);
    let e = graph.create_effect(record, vec![c], Vec::new());
    let (log, first) = graph.tick(Vec::new());
    assert!(first.fired.is_empty());
    assert!(log.is_empty());
    graph.send(a, Value::Bool(true)).unwrap();
    let (log, report) = graph.tick(log);
    assert_eq!(report.fired, vec![e]);
    assert_eq!(log, vec![vec![text("yes")]]);
    let (log, idle) = graph.tick(log);
    assert!(idle.fired.is_empty());
    assert_eq!(log.len(), 1);
}

#[test]
fn unit_signal_fires_only_when_triggered() {
    let mut graph: Graph = SignalGraph::new();
    let t = graph.create_signal(Value::Unit);
    let e2 = graph.create_effect(record, Vec::new(), vec![t]);
    let (log, _) = graph.tick(Vec::new());
    graph.send(t, Value::Unit).unwrap();
    let (log, one) = graph.tick(log);
    assert!(one.frontier.is_empty());
    assert!(one.fired.is_empty());
    graph.send(t, Value::Unit).unwrap();
    let (log, two) = graph.tick(log);
    assert!(two.frontier.is_empty());
    assert!(two.fired.is_empty());
    assert!(log.is_empty());
    graph.trigger(t, Value::Unit).unwrap();
    let (log, three) = graph.tick(log);
    assert_eq!(three.frontier, vec![t]);
    assert_eq!(three.fired, vec![e2]);
    assert_eq!(log, vec![Vec::<Reading>::new()]);
}

#[test]
fn handles_count_up_from_zero() {
    let mut graph: Graph = SignalGraph::new();
    assert_eq!(graph.capacity(), 0);
    let a = graph.create_signal(Value::Int(1));
    let b = graph.allocate();
    assert_eq!(a, Handle(0));
    assert_eq!(b, Handle(1));
    assert!(graph.contains(b));
    assert!(!graph.has_cell(b));
    assert!(!graph.contains(Handle(2)));
    assert!(graph.remove(a));
    assert!(!graph.remove(a));
    assert!(!graph.contains(a));
    assert_eq!(graph.capacity(), 2);
}
