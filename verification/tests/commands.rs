use lazy_signals::commands::{
    Command, Commands, CreateStateCommand, LazySignalsCommandsExt, SendSignalCommand,
    TriggerSignalCommand,
};
use lazy_signals::framework::SignalGraph;
use lazy_signals::value::{Handle, Reading, SignalError, Value};

type Memo = fn(Vec<Reading>) -> Reading;
type Effect = fn(Vec<Reading>, u32) -> u32;
type Graph = SignalGraph<Memo, Effect, u32>;

fn negate(args: Vec<Reading>) -> Reading {
    match &args[0] {
        Some(Ok(Value::Bool(b))) => Some(Ok(Value::Bool(!*b))),
        Some(Err(e)) => Some(Err(*e)),
        _ => None,
    }
}

fn count(_args: Vec<Reading>, runs: u32) -> u32 {
    runs + 1
}

#[test]
fn send_to_a_missing_handle_is_reported_and_changes_nothing() {
    let mut graph: Graph = SignalGraph::new();
    let a = graph.create_signal(Value::Int(1));
    let bare = graph.allocate();
    assert_eq!(graph.send(Handle(9), Value::Int(2)), Err(SignalError::MissingHandle(Handle(9))));
    assert_eq!(graph.trigger(bare, Value::Int(2)), Err(SignalError::MissingHandle(bare)));
    assert_eq!(graph.read(Handle(9)), Some(Err(SignalError::MissingHandle(Handle(9)))));
    assert_eq!(graph.value(bare), Err(SignalError::MissingHandle(bare)));
    let (_, report) = graph.tick(0);
    assert!(report.frontier.is_empty());
    assert_eq!(graph.read(a), Some(Ok(Value::Int(1))));
}

#[test]
fn create_on_a_missing_handle_is_reported() {
    let mut graph: Graph = SignalGraph::new();
    let r = (CreateStateCommand { state: Handle(3), data: Value::Unit }).apply(&mut graph);
    assert_eq!(r, Err(SignalError::MissingHandle(Handle(3))));
    assert_eq!(graph.capacity(), 0);
}

#[test]
fn commands_apply_to_an_allocated_handle() {
    let mut graph: Graph = SignalGraph::new();
    let h = graph.allocate();
    assert_eq!((CreateStateCommand { state: h, data: Value::Int(1) }).apply(&mut graph), Ok(()));
    assert_eq!(graph.read(h), Some(Ok(Value::Int(1))));
    assert_eq!((SendSignalCommand { signal: h, data: Value::Int(1) }).apply(&mut graph), Ok(()));
    assert!(graph.begin_tick().is_empty());
    assert_eq!((TriggerSignalCommand { signal: h, data: Value::Int(1) }).apply(&mut graph), Ok(()));
    assert_eq!(graph.begin_tick(), vec![h]);
    assert_eq!((SendSignalCommand { signal: h, data: Value::Int(2) }).apply(&mut graph), Ok(()));
    assert_eq!(graph.read(h), Some(Ok(Value::Int(1))));
    assert_eq!(graph.begin_tick(), vec![h]);
    assert_eq!(graph.read(h), Some(Ok(Value::Int(2))));
}

#[test]
fn queue_is_applied_first_to_last() {
    let mut graph: Graph = SignalGraph::new();
    let a = graph.allocate();
    let c = graph.allocate();
    let e = graph.allocate();
    let mut commands: Commands<Memo, Effect, u32> = Commands::new();
    commands.send_signal(a, Value::Bool(true));
    commands.create_state(a, Value::Bool(false));
    commands.create_computed(c, negate, vec![a]);
    commands.create_effect(e, count, vec![c], Vec::new());
    commands.trigger_signal(Handle(77), Value::Unit);
    commands.send_signal(a, Value::Bool(true));
    commands.send_signal(a, Value::Bool(false));
    commands.send_signal(a, Value::Bool(true));
    assert_eq!(commands.len(), 8);
    assert!(!graph.has_cell(a));
    let errors = commands.apply(&mut graph);
    assert_eq!(errors, vec![SignalError::MissingHandle(a), SignalError::MissingHandle(Handle(77))]);
    assert_eq!(graph.read(a), Some(Ok(Value::Bool(false))));
    assert!(graph.is_computed(c));
    assert!(graph.is_effect(e));
    assert_eq!(graph.sources(e), vec![c]);
    let (runs, first) = graph.tick(0);
    assert_eq!(first.frontier, vec![a]);
    assert_eq!(graph.read(c), Some(Ok(Value::Bool(false))));
    assert_eq!(runs, 0);
    let mut commands: Commands<Memo, Effect, u32> = Commands::new();
    commands.send_signal(a, Value::Bool(false));
    assert!(commands.apply(&mut graph).is_empty());
    let (runs, second) = graph.tick(runs);
    assert_eq!(second.fired, vec![e]);
    assert_eq!(runs, 1);
    assert_eq!(graph.read(c), Some(Ok(Value::Bool(true))));
}

#[test]
fn single_command_of_any_sort_applies() {
    let mut graph: Graph = SignalGraph::new();
    let h = graph.allocate();
    let made: Command<Memo, Effect> = Command::CreateState(CreateStateCommand { state: h, data: Value::Unit });
    assert_eq!(made.apply(&mut graph), None);
    let lost: Command<Memo, Effect> =
        Command::SendSignal(SendSignalCommand { signal: Handle(5), data: Value::Unit });
    assert_eq!(lost.apply(&mut graph), Some(SignalError::MissingHandle(Handle(5))));
}

#[test]
fn recreated_node_starts_afresh() {
    let mut graph: Graph = SignalGraph::new();
    let a = graph.create_signal(Value::Bool(true));
    let c = graph.create_computed(negate, vec![a]);
    graph.tick(0);
    assert_eq!(graph.read(c), Some(Ok(Value::Bool(false))));
    assert_eq!(graph.subscribers(a), vec![c]);
    (CreateStateCommand { state: a, data: Value::Bool(false) }).apply(&mut graph).unwrap();
    assert!(graph.subscribers(a).is_empty());
    assert_eq!(graph.read(a), Some(Ok(Value::Bool(false))));
    assert_eq!(graph.triggers(c), Vec::<Handle>::new());
    assert!(graph.awaits_compute(Handle(1)) == false);
}
