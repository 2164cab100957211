use lazy_signals::commands::CreateComputedCommand;
use lazy_signals::framework::SignalGraph;
use lazy_signals::value::{Handle, Reading, SignalError, Value};
use std::cell::Cell;
use std::rc::Rc;

type Memo = Box<dyn Fn(Vec<Reading>) -> Reading>;
type Effect = Box<dyn Fn(Vec<Reading>, u32) -> u32>;
type Graph = SignalGraph<Memo, Effect, u32>;

fn whole(i: i64) -> Reading {
    Some(Ok(Value::Int(i)))
}

fn as_int(r: &Reading) -> Option<i64> {
    match r {
        Some(Ok(Value::Int(i))) => Some(*i),
        _ => None,
    }
}

/// The sum of the integer positions, counted in `calls`; an error in any
/// position comes back as it is.
fn counted_sum(calls: &Rc<Cell<u32>>) -> Memo {
    let calls = calls.clone();
    Box::new(move |args: Vec<Reading>| {
        calls.set(calls.get() + 1);
        let mut sum = 0;
        for a in args.iter() {
            match a {
                Some(Ok(Value::Int(i))) => sum += *i,
                Some(Err(e)) => return Some(Err(*e)),
                _ => return None,
            }
        }
        Some(Ok(Value::Int(sum)))
    })
}

fn sum() -> Memo {
    counted_sum(&Rc::new(Cell::new(0)))
}

#[test]
fn diamond_evaluates_each_node_once() {
    let mut graph: Graph = SignalGraph::new();
    let (nb, nc, nd) = (Rc::new(Cell::new(0)), Rc::new(Cell::new(0)), Rc::new(Cell::new(0)));
    let a = graph.create_signal(Value::Int(1));
    let b = graph.create_computed(counted_sum(&nb), vec![a]);
    let c = graph.create_computed(counted_sum(&nc), vec![a, a]);
    let d = graph.create_computed(counted_sum(&nd), vec![b, c]);
    let (_, first) = graph.tick(0);
    assert_eq!((nb.get(), nc.get(), nd.get()), (1, 1, 1));
    assert_eq!(first.propagation.evaluated.len(), 3);
    assert_eq!(graph.read(d), whole(3));
    graph.send(a, Value::Int(10)).unwrap();
    let (_, report) = graph.tick(0);
    assert_eq!((nb.get(), nc.get(), nd.get()), (2, 2, 2));
    let mut evaluated = report.propagation.evaluated.clone();
    assert_eq!(evaluated.last(), Some(&d));
    evaluated.sort_by_key(|h| h.0);
    assert_eq!(evaluated, vec![b, c, d]);
    assert_eq!(graph.read(b), whole(10));
    assert_eq!(graph.read(c), whole(20));
    assert_eq!(graph.read(d), whole(30));
    assert!(report.propagation.refused.is_empty());
}

#[test]
fn source_with_a_later_handle_is_evaluated_first() {
    let mut graph: Graph = SignalGraph::new();
    let a = graph.create_signal(Value::Int(2));
    let x = graph.allocate();
    let y = graph.allocate();
    (CreateComputedCommand { computed: x, function: sum(), sources: vec![y, a] }).apply(&mut graph).unwrap();
    (CreateComputedCommand { computed: y, function: sum(), sources: vec![a] }).apply(&mut graph).unwrap();
    let (_, first) = graph.tick(0);
    assert_eq!(first.propagation.evaluated, vec![y, x]);
    assert_eq!(graph.read(x), whole(4));
    graph.send(a, Value::Int(5)).unwrap();
    let (_, report) = graph.tick(0);
    assert_eq!(report.propagation.evaluated, vec![y, x]);
    assert_eq!(report.propagation.changed, vec![y, x]);
    assert_eq!(graph.read(y), whole(5));
    assert_eq!(graph.read(x), whole(10));
}

#[test]
fn long_chain_is_brought_up_to_date_in_one_tick() {
    let mut graph: Graph = SignalGraph::new();
    let a = graph.create_signal(Value::Int(0));
    let mut last = a;
    let mut chain = Vec::new();
    for _ in 0..200 {
        last = graph.create_computed(sum(), vec![last]);
        chain.push(last);
    }
    graph.tick(0);
    graph.send(a, Value::Int(7)).unwrap();
    let (_, report) = graph.tick(0);
    assert_eq!(report.propagation.evaluated, chain);
    assert_eq!(graph.read(last), whole(7));
}

#[test]
fn unchanged_send_evaluates_nothing() {
    let mut graph: Graph = SignalGraph::new();
    let calls = Rc::new(Cell::new(0));
    let a = graph.create_signal(Value::Int(1));
    let b = graph.create_computed(counted_sum(&calls), vec![a]);
    graph.tick(0);
    assert_eq!(calls.get(), 1);
    graph.send(a, Value::Int(1)).unwrap();
    let (_, report) = graph.tick(0);
    assert!(report.frontier.is_empty());
    assert!(report.propagation.evaluated.is_empty());
    assert!(report.propagation.changed.is_empty());
    assert_eq!(calls.get(), 1);
    graph.trigger(a, Value::Int(1)).unwrap();
    let (_, forced) = graph.tick(0);
    assert_eq!(forced.frontier, vec![a]);
    assert_eq!(forced.propagation.evaluated, vec![b]);
    assert!(forced.propagation.changed.is_empty());
    assert_eq!(calls.get(), 2);
}

#[test]
fn unchanged_result_stops_the_wave() {
    let mut graph: Graph = SignalGraph::new();
    let calls = Rc::new(Cell::new(0));
    let a = graph.create_signal(Value::Int(3));
    let parity: Memo = Box::new(|args: Vec<Reading>| as_int(&args[0]).map(|i| Ok(Value::Int(i % 2))));
    let p = graph.create_computed(parity, vec![a]);
    let q = graph.create_computed(counted_sum(&calls), vec![p]);
    graph.tick(0);
    assert_eq!(calls.get(), 1);
    graph.send(a, Value::Int(5)).unwrap();
    let (_, report) = graph.tick(0);
    assert_eq!(report.propagation.evaluated, vec![p]);
    assert!(report.propagation.changed.is_empty());
    assert_eq!(calls.get(), 1);
    assert_eq!(graph.read(q), whole(1));
}

#[test]
fn unrelated_node_is_left_alone() {
    let mut graph: Graph = SignalGraph::new();
    let calls = Rc::new(Cell::new(0));
    let a = graph.create_signal(Value::Int(1));
    let z = graph.create_signal(Value::Int(1));
    let b = graph.create_computed(sum(), vec![a]);
    let other = graph.create_computed(counted_sum(&calls), vec![z]);
    graph.tick(0);
    graph.send(a, Value::Int(2)).unwrap();
    let (_, report) = graph.tick(0);
    assert_eq!(report.propagation.evaluated, vec![b]);
    assert_eq!(calls.get(), 1);
    assert_eq!(graph.read(other), whole(1));
}

#[test]
fn computed_source_of_a_stale_node_is_resolved_first() {
    let mut graph: Graph = SignalGraph::new();
    let a = graph.create_signal(Value::Int(1));
    let z = graph.create_signal(Value::Int(10));
    let b = graph.create_computed(sum(), vec![a]);
    let c = graph.create_computed(sum(), vec![b, z]);
    graph.tick(0);
    graph.send(z, Value::Int(20)).unwrap();
    let (_, report) = graph.tick(0);
    assert_eq!(report.propagation.evaluated, vec![b, c]);
    assert_eq!(report.propagation.changed, vec![c]);
    assert_eq!(graph.read(c), whole(21));
}

#[test]
fn withheld_outcome_keeps_the_value() {
    let mut graph: Graph = SignalGraph::new();
    let a = graph.create_signal(Value::Int(1));
    let b = graph.create_computed(sum(), vec![a]);
    graph.tick(0);
    assert_eq!(graph.read(b), whole(1));
    graph.send(a, Value::Unit).unwrap();
    let (_, report) = graph.tick(0);
    assert_eq!(report.propagation.evaluated, vec![b]);
    assert!(report.propagation.changed.is_empty());
    assert_eq!(graph.read(b), whole(1));
}

#[test]
fn error_travels_to_the_readers() {
    let mut graph: Graph = SignalGraph::new();
    let a = graph.create_signal(Value::Int(1));
    let fail: Memo = Box::new(|args: Vec<Reading>| match as_int(&args[0]) {
        Some(i) if i < 0 => Some(Err(SignalError::PropagatorError(42))),
        Some(i) => Some(Ok(Value::Int(i))),
        None => None,
    });
    let seen: Rc<Cell<Option<SignalError>>> = Rc::new(Cell::new(None));
    let seen_in = seen.clone();
    let watch: Memo = Box::new(move |args: Vec<Reading>| {
        if let Some(Err(e)) = &args[0] {
            seen_in.set(Some(*e));
            return Some(Ok(Value::Int(-1)));
        }
        as_int(&args[0]).map(|i| Ok(Value::Int(i)))
    });
    let b = graph.create_computed(fail, vec![a]);
    let c = graph.create_computed(sum(), vec![b]);
    let d = graph.create_computed(watch, vec![b]);
    graph.tick(0);
    assert_eq!(graph.read(c), whole(1));
    graph.send(a, Value::Int(-5)).unwrap();
    let (_, report) = graph.tick(0);
    assert_eq!(graph.read(b), Some(Err(SignalError::PropagatorError(42))));
    assert_eq!(graph.value(b), Err(SignalError::PropagatorError(42)));
    assert_eq!(graph.read(c), Some(Err(SignalError::PropagatorError(42))));
    assert_eq!(seen.get(), Some(SignalError::PropagatorError(42)));
    assert_eq!(graph.read(d), whole(-1));
    assert_eq!(report.propagation.changed.len(), 3);
    graph.send(a, Value::Int(-6)).unwrap();
    let (_, again) = graph.tick(0);
    assert!(again.propagation.changed.contains(&b));
    assert!(again.propagation.changed.contains(&c));
    assert!(!again.propagation.changed.contains(&d));
}

#[test]
fn two_node_cycle_is_refused_and_reported() {
    let mut graph: Graph = SignalGraph::new();
    let a = graph.create_signal(Value::Int(1));
    let x = graph.allocate();
    let y = graph.allocate();
    (CreateComputedCommand { computed: x, function: sum(), sources: vec![y, a] }).apply(&mut graph).unwrap();
    (CreateComputedCommand { computed: y, function: sum(), sources: vec![x] }).apply(&mut graph).unwrap();
    let (_, report) = graph.tick(0);
    assert_eq!(report.propagation.refused.len(), 1);
    let refused = report.propagation.refused[0];
    assert!(refused == x || refused == y);
    assert_eq!(report.propagation.cycles(), vec![SignalError::CycleDetected(refused)]);
    assert!(!report.propagation.evaluated.contains(&refused));
    assert_eq!(graph.read(refused), None);
    assert_eq!(graph.value(refused), Err(SignalError::ReadBeforeInitialized));
}

#[test]
fn node_that_reads_itself_is_refused() {
    let mut graph: Graph = SignalGraph::new();
    let z = graph.allocate();
    (CreateComputedCommand { computed: z, function: sum(), sources: vec![z] }).apply(&mut graph).unwrap();
    let ok = graph.create_computed(sum(), Vec::new());
    let (_, report) = graph.tick(0);
    assert_eq!(report.propagation.refused, vec![z]);
    assert_eq!(report.propagation.evaluated, vec![ok]);
    assert_eq!(graph.read(ok), whole(0));
    let (_, next) = graph.tick(0);
    assert_eq!(next.propagation.refused, vec![z]);
}

#[test]
fn missing_source_reads_as_nothing() {
    let mut graph: Graph = SignalGraph::new();
    let a = graph.create_signal(Value::Int(1));
    let shape: Memo = Box::new(|args: Vec<Reading>| {
        let present = args.iter().filter(|r| r.is_some()).count();
        Some(Ok(Value::Int((args.len() * 10 + present) as i64)))
    });
    let gone = graph.create_signal(Value::Int(5));
    graph.remove(gone);
    let b = graph.create_computed(shape, vec![a, gone, Handle(99)]);
    let (_, report) = graph.tick(0);
    assert_eq!(report.propagation.evaluated, vec![b]);
    assert_eq!(graph.read(b), whole(31));
    assert_eq!(graph.subscribers(a), vec![b]);
    assert!(graph.subscribers(gone).is_empty());
}

#[test]
fn evaluate_outside_a_tick_reports_the_change() {
    let mut graph: Graph = SignalGraph::new();
    let a = graph.create_signal(Value::Int(4));
    let b = graph.create_computed(sum(), vec![a]);
    assert_eq!(graph.evaluate(b), Ok(true));
    assert_eq!(graph.evaluate(b), Ok(false));
    assert_eq!(graph.read(b), whole(4));
    assert_eq!(graph.evaluate(a), Err(SignalError::MissingHandle(a)));
    assert_eq!(graph.evaluate(Handle(7)), Err(SignalError::MissingHandle(Handle(7))));
}

#[test]
fn propagate_takes_the_frontier_it_is_given() {
    let mut graph: Graph = SignalGraph::new();
    let a = graph.create_signal(Value::Int(1));
    let b = graph.create_computed(sum(), vec![a]);
    graph.tick(0);
    graph.send(a, Value::Int(2)).unwrap();
    let frontier = graph.begin_tick();
    assert_eq!(frontier, vec![a]);
    assert_eq!(graph.read(b), whole(1));
    let report = graph.propagate(&frontier);
    assert_eq!(report.evaluated, vec![b]);
    assert_eq!(graph.read(b), whole(2));
    let idle = graph.propagate(&Vec::new());
    assert!(idle.evaluated.is_empty());
}
