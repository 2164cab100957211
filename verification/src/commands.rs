//! Requests to build and feed a graph. A request is a value: it can be made
//! at any time and takes effect when it is applied.

use core::marker::PhantomData;
use vstd::prelude::*;
use crate::framework::{GraphModel, Node, NodeModel, SignalGraph};
use crate::value::{Handle, Reading, SignalError, Value};

verus! {

/// Makes a computed node of an allocated handle.
pub struct CreateComputedCommand<P> {
    pub computed: Handle,
    pub function: P,
    pub sources: Vec<Handle>,
}

impl<P: Fn(Vec<Reading>) -> Reading> CreateComputedCommand<P> {
    /// Attaches an empty cell, the function and its sources to the handle,
    /// and marks the node for wiring. Whatever the handle held before is
    /// replaced. Where the handle names no node nothing changes and the
    /// answer is `MissingHandle`.
    pub fn apply<E: Fn(Vec<Reading>, S) -> S, S>(self, graph: &mut SignalGraph<P, E, S>) -> (r: Result<
        (),
        SignalError,
    >)
        requires
            old(graph).wf(),
            forall|args: Vec<Reading>| #[trigger] call_requires(self.function, (args,)),
        ensures
            final(graph).wf(),
            old(graph)@.contains(self.computed) ==> r is Ok && final(graph)@ == old(graph)@.with_node(
                self.computed,
                NodeModel::computed(self.function, self.sources@),
            ),
            !old(graph)@.contains(self.computed) ==> r == Err::<(), SignalError>(
                SignalError::MissingHandle(self.computed),
            ) && final(graph)@ == old(graph)@,
    {
        if !graph.contains(self.computed) {
            return Err(SignalError::MissingHandle(self.computed));
        }
        graph.attach(self.computed, Node::computed(self.function, self.sources));
        Ok(())
    }
}

/// Makes an effect of an allocated handle.
pub struct CreateEffectCommand<E> {
    pub effect: Handle,
    pub function: E,
    pub sources: Vec<Handle>,
    pub triggers: Vec<Handle>,
}

impl<E> CreateEffectCommand<E> {
    /// Attaches the function, its sources and its triggers to the handle, and
    /// marks the node for wiring. An effect has no cell. Where the handle
    /// names no node nothing changes and the answer is `MissingHandle`.
    pub fn apply<P: Fn(Vec<Reading>) -> Reading, S>(self, graph: &mut SignalGraph<P, E, S>) -> (r: Result<
        (),
        SignalError,
    >) where E: Fn(Vec<Reading>, S) -> S
        requires
            old(graph).wf(),
            forall|args: Vec<Reading>, state: S| #[trigger] call_requires(self.function, (args, state)),
        ensures
            final(graph).wf(),
            old(graph)@.contains(self.effect) ==> r is Ok && final(graph)@ == old(graph)@.with_node(
                self.effect,
                NodeModel::effect(self.function, self.sources@, self.triggers@),
            ),
            !old(graph)@.contains(self.effect) ==> r == Err::<(), SignalError>(
                SignalError::MissingHandle(self.effect),
            ) && final(graph)@ == old(graph)@,
    {
        if !graph.contains(self.effect) {
            return Err(SignalError::MissingHandle(self.effect));
        }
        graph.attach(self.effect, Node::effect(self.function, self.sources, self.triggers));
        Ok(())
    }
}

/// Makes a signal of an allocated handle.
pub struct CreateStateCommand {
    pub state: Handle,
    pub data: Value,
}

impl CreateStateCommand {
    /// Attaches a cell that holds `data` to the handle. Where the handle
    /// names no node nothing changes and the answer is `MissingHandle`.
    pub fn apply<P: Fn(Vec<Reading>) -> Reading, E: Fn(Vec<Reading>, S) -> S, S>(
        self,
        graph: &mut SignalGraph<P, E, S>,
    ) -> (r: Result<(), SignalError>)
        requires
            old(graph).wf(),
        ensures
            final(graph).wf(),
            old(graph)@.contains(self.state) ==> r is Ok && final(graph)@ == old(graph)@.with_node(
                self.state,
                NodeModel::signal(Some(Ok(self.data@))),
            ),
            !old(graph)@.contains(self.state) ==> r == Err::<(), SignalError>(
                SignalError::MissingHandle(self.state),
            ) && final(graph)@ == old(graph)@,
    {
        if !graph.contains(self.state) {
            return Err(SignalError::MissingHandle(self.state));
        }
        graph.attach(self.state, Node::signal(Some(Ok(self.data))));
        Ok(())
    }
}

/// Stages a value on a cell; the next commit takes it if it differs from
/// the committed one.
pub struct SendSignalCommand {
    pub signal: Handle,
    pub data: Value,
}

impl SendSignalCommand {
    /// Stages `data` without force. The target may be gone by now: then
    /// nothing changes and the answer is `MissingHandle`.
    pub fn apply<P: Fn(Vec<Reading>) -> Reading, E: Fn(Vec<Reading>, S) -> S, S>(
        self,
        graph: &mut SignalGraph<P, E, S>,
    ) -> (r: Result<(), SignalError>)
        requires
            old(graph).wf(),
        ensures
            final(graph).wf(),
            old(graph)@.has_cell(self.signal) ==> r is Ok && final(graph)@ == old(graph)@.stage(
                self.signal,
                Some(Ok(self.data@)),
                false,
            ),
            !old(graph)@.has_cell(self.signal) ==> r == Err::<(), SignalError>(
                SignalError::MissingHandle(self.signal),
            ) && final(graph)@ == old(graph)@,
    {
        graph.merge_next(self.signal, Some(Ok(self.data)), false)
    }
}

/// Stages a value on a cell; the next commit takes it whether it differs
/// or not.
pub struct TriggerSignalCommand {
    pub signal: Handle,
    pub data: Value,
}

impl TriggerSignalCommand {
    /// Stages `data` with force. The target may be gone by now: then nothing
    /// changes and the answer is `MissingHandle`.
    pub fn apply<P: Fn(Vec<Reading>) -> Reading, E: Fn(Vec<Reading>, S) -> S, S>(
        self,
        graph: &mut SignalGraph<P, E, S>,
    ) -> (r: Result<(), SignalError>)
        requires
            old(graph).wf(),
        ensures
            final(graph).wf(),
            old(graph)@.has_cell(self.signal) ==> r is Ok && final(graph)@ == old(graph)@.stage(
                self.signal,
                Some(Ok(self.data@)),
                true,
            ),
            !old(graph)@.has_cell(self.signal) ==> r == Err::<(), SignalError>(
                SignalError::MissingHandle(self.signal),
            ) && final(graph)@ == old(graph)@,
    {
        graph.merge_next(self.signal, Some(Ok(self.data)), true)
    }
}

/// One request of any sort.
pub enum Command<P, E> {
    CreateComputed(CreateComputedCommand<P>),
    CreateEffect(CreateEffectCommand<E>),
    CreateState(CreateStateCommand),
    SendSignal(SendSignalCommand),
    TriggerSignal(TriggerSignalCommand),
}

/// Whether the function that `c` carries, if any, accepts whatever it is
/// handed.
pub open spec fn callable<S, P: Fn(Vec<Reading>) -> Reading, E: Fn(Vec<Reading>, S) -> S>(
    c: Command<P, E>,
) -> bool {
    match c {
        Command::CreateComputed(c) => forall|args: Vec<Reading>| #[trigger]
            call_requires(c.function, (args,)),
        Command::CreateEffect(c) => forall|args: Vec<Reading>, state: S| #[trigger]
            call_requires(c.function, (args, state)),
        _ => true,
    }
}

/// The error that applying `c` to `g` gives, if any: the handle that `c`
/// names is missing.
pub open spec fn failure<P, E>(g: GraphModel<P, E>, c: Command<P, E>) -> Option<SignalError> {
    match c {
        Command::CreateComputed(c) => if g.contains(c.computed) {
            None
        } else {
            Some(SignalError::MissingHandle(c.computed))
        },
        Command::CreateEffect(c) => if g.contains(c.effect) {
            None
        } else {
            Some(SignalError::MissingHandle(c.effect))
        },
        Command::CreateState(c) => if g.contains(c.state) {
            None
        } else {
            Some(SignalError::MissingHandle(c.state))
        },
        Command::SendSignal(c) => if g.has_cell(c.signal) {
            None
        } else {
            Some(SignalError::MissingHandle(c.signal))
        },
        Command::TriggerSignal(c) => if g.has_cell(c.signal) {
            None
        } else {
            Some(SignalError::MissingHandle(c.signal))
        },
    }
}

/// The graph after `c` was applied to `g`. A request that fails changes
/// nothing.
pub open spec fn applied<P, E>(g: GraphModel<P, E>, c: Command<P, E>) -> GraphModel<P, E> {
    if failure(g, c) is Some {
        g
    } else {
        match c {
            Command::CreateComputed(c) => g.with_node(
                c.computed,
                NodeModel::computed(c.function, c.sources@),
            ),
            Command::CreateEffect(c) => g.with_node(
                c.effect,
                NodeModel::effect(c.function, c.sources@, c.triggers@),
            ),
            Command::CreateState(c) => g.with_node(c.state, NodeModel::signal(Some(Ok(c.data@)))),
            Command::SendSignal(c) => g.stage(c.signal, Some(Ok(c.data@)), false),
            Command::TriggerSignal(c) => g.stage(c.signal, Some(Ok(c.data@)), true),
        }
    }
}

/// The graph after the requests `cs` were applied to `g`, first to last.
pub open spec fn applied_all<P, E>(g: GraphModel<P, E>, cs: Seq<Command<P, E>>) -> GraphModel<P, E>
    decreases cs.len(),
{
    if cs.len() == 0 {
        g
    } else {
        applied_all(applied(g, cs.first()), cs.drop_first())
    }
}

/// The errors that applying the requests `cs` to `g` gives, first to last.
pub open spec fn failures<P, E>(g: GraphModel<P, E>, cs: Seq<Command<P, E>>) -> Seq<SignalError>
    decreases cs.len(),
{
    if cs.len() == 0 {
        Seq::empty()
    } else {
        let rest = failures(applied(g, cs.first()), cs.drop_first());
        match failure(g, cs.first()) {
            Some(e) => seq![e] + rest,
            None => rest,
        }
    }
}

impl<P: Fn(Vec<Reading>) -> Reading, E> Command<P, E> {
    /// Applies the request, whatever its sort, and returns its error, if any.
    pub fn apply<S>(self, graph: &mut SignalGraph<P, E, S>) -> (r: Option<SignalError>) where
        E: Fn(Vec<Reading>, S) -> S,

        requires
            old(graph).wf(),
            callable::<S, P, E>(self),
        ensures
            final(graph).wf(),
            r == failure(old(graph)@, self),
            final(graph)@ == applied(old(graph)@, self),
    {
        let r = match self {
            Command::CreateComputed(c) => c.apply(graph),
            Command::CreateEffect(c) => c.apply(graph),
            Command::CreateState(c) => c.apply(graph),
            Command::SendSignal(c) => c.apply(graph),
            Command::TriggerSignal(c) => c.apply(graph),
        };
        match r {
            Ok(_) => None,
            Err(e) => Some(e),
        }
    }
}

/// A queue of requests, applied together at a point of the host's choosing.
pub struct Commands<P, E, S> {
    queue: Vec<Command<P, E>>,
    state: PhantomData<S>,
}

/// The requests that an application makes of a graph, queued on whatever
/// implements this.
pub trait LazySignalsCommandsExt<P: Fn(Vec<Reading>) -> Reading, E: Fn(Vec<Reading>, S) -> S, S>: Sized {
    /// The requests queued so far, first to last.
    spec fn queued(&self) -> Seq<Command<P, E>>;

    /// Whether every queued function accepts whatever it is handed.
    open spec fn ready(&self) -> bool {
        forall|i: int| 0 <= i < self.queued().len() ==> callable::<S, P, E>(#[trigger] self.queued()[i])
    }

    /// Queues the request to make a computed node of `computed`.
    fn create_computed(&mut self, computed: Handle, function: P, sources: Vec<Handle>)
        requires
            old(self).ready(),
            forall|args: Vec<Reading>| #[trigger] call_requires(function, (args,)),
        ensures
            final(self).ready(),
            final(self).queued() == old(self).queued().push(
                Command::CreateComputed(CreateComputedCommand { computed, function, sources }),
            ),
    ;

    /// Queues the request to make an effect of `effect`.
    fn create_effect(&mut self, effect: Handle, function: E, sources: Vec<Handle>, triggers: Vec<Handle>)
        requires
            old(self).ready(),
            forall|args: Vec<Reading>, state: S| #[trigger] call_requires(function, (args, state)),
        ensures
            final(self).ready(),
            final(self).queued() == old(self).queued().push(
                Command::CreateEffect(CreateEffectCommand { effect, function, sources, triggers }),
            ),
    ;

    /// Queues the request to make a signal of `state` that holds `data`.
    fn create_state(&mut self, state: Handle, data: Value)
        requires
            old(self).ready(),
        ensures
            final(self).ready(),
            final(self).queued() == old(self).queued().push(
                Command::CreateState(CreateStateCommand { state, data }),
            ),
    ;

    /// Queues the request to send `data` to `signal`.
    fn send_signal(&mut self, signal: Handle, data: Value)
        requires
            old(self).ready(),
        ensures
            final(self).ready(),
            final(self).queued() == old(self).queued().push(
                Command::SendSignal(SendSignalCommand { signal, data }),
            ),
    ;

    /// Queues the request to trigger `signal` with `data`.
    fn trigger_signal(&mut self, signal: Handle, data: Value)
        requires
            old(self).ready(),
        ensures
            final(self).ready(),
            final(self).queued() == old(self).queued().push(
                Command::TriggerSignal(TriggerSignalCommand { signal, data }),
            ),
    ;
}

impl<P: Fn(Vec<Reading>) -> Reading, E: Fn(Vec<Reading>, S) -> S, S> LazySignalsCommandsExt<P, E, S> for Commands<
    P,
    E,
    S,
> {
    closed spec fn queued(&self) -> Seq<Command<P, E>> {
        self.queue@
    }

    fn create_computed(&mut self, computed: Handle, function: P, sources: Vec<Handle>) {
        self.queue.push(Command::CreateComputed(CreateComputedCommand { computed, function, sources }));
    }

    fn create_effect(&mut self, effect: Handle, function: E, sources: Vec<Handle>, triggers: Vec<Handle>) {
        self.queue.push(
            Command::CreateEffect(CreateEffectCommand { effect, function, sources, triggers }),
        );
    }

    fn create_state(&mut self, state: Handle, data: Value) {
        self.queue.push(Command::CreateState(CreateStateCommand { state, data }));
    }

    fn send_signal(&mut self, signal: Handle, data: Value) {
        self.queue.push(Command::SendSignal(SendSignalCommand { signal, data }));
    }

    fn trigger_signal(&mut self, signal: Handle, data: Value) {
        self.queue.push(Command::TriggerSignal(TriggerSignalCommand { signal, data }));
    }
}

impl<P: Fn(Vec<Reading>) -> Reading, E: Fn(Vec<Reading>, S) -> S, S> Commands<P, E, S> {
    /// An empty queue.
    pub fn new() -> (commands: Self)
        ensures
            commands.queued().len() == 0,
            commands.ready(),
    {
        Commands { queue: Vec::new(), state: PhantomData }
    }

    /// The number of queued requests.
    pub fn len(&self) -> (n: usize)
        ensures
            n == self.queued().len(),
    {
        self.queue.len()
    }

    /// Applies the queued requests to `graph`, first to last, and returns
    /// the errors of those that failed, in that order. A request that fails
    /// changes nothing and does not keep the others from being applied.
    pub fn apply(self, graph: &mut SignalGraph<P, E, S>) -> (errors: Vec<SignalError>)
        requires
            old(graph).wf(),
            self.ready(),
        ensures
            final(graph).wf(),
            final(graph)@ == applied_all(old(graph)@, self.queued()),
            errors@ == failures(old(graph)@, self.queued()),
    {
        let ghost cs = self.queue@;
        let ghost n = cs.len() as int;
        proof {
            assert(self.queued() == cs);
            assert forall|k: int| 0 <= k < n implies callable::<S, P, E>(#[trigger] cs[k]) by {
                assert(callable::<S, P, E>(self.queued()[k]));
            }
        }
        let mut rest = self.queue;
        let mut turned: Vec<Command<P, E>> = Vec::new();
        while rest.len() > 0
            invariant
                n == cs.len(),
                forall|k: int| 0 <= k < n ==> callable::<S, P, E>(#[trigger] cs[k]),
                rest@.len() + turned@.len() == n,
                forall|k: int| 0 <= k < rest@.len() ==> rest@[k] == cs[k],
                forall|k: int| 0 <= k < turned@.len() ==> turned@[k] == cs[n - 1 - k],
            decreases rest@.len(),
        {
            let c = rest.pop().unwrap();
            turned.push(c);
        }
        let mut errors: Vec<SignalError> = Vec::new();
        assert(cs.skip(0) =~= cs);
        while turned.len() > 0
            invariant
                graph.wf(),
                n == cs.len(),
                turned@.len() <= n,
                forall|k: int| 0 <= k < turned@.len() ==> turned@[k] == cs[n - 1 - k],
                forall|k: int| 0 <= k < n ==> callable::<S, P, E>(#[trigger] cs[k]),
                applied_all(graph@, cs.skip(n - turned@.len())) == applied_all(old(graph)@, cs),
                errors@ + failures(graph@, cs.skip(n - turned@.len())) == failures(old(graph)@, cs),
            decreases turned@.len(),
        {
            let ghost i = n - turned@.len();
            let ghost before = graph@;
            let ghost sofar = errors@;
            let c = turned.pop().unwrap();
            assert(c == cs[i]);
            assert(cs.skip(i).first() == cs[i]);
            assert(cs.skip(i).drop_first() =~= cs.skip(i + 1));
            match c.apply(graph) {
                Some(e) => {
                    errors.push(e);
                    assert(errors@ + failures(graph@, cs.skip(i + 1)) =~= sofar + failures(
                        before,
                        cs.skip(i),
                    ));
                },
                None => {},
            }
        }
        assert(cs.skip(n).len() == 0);
        assert(errors@ + Seq::<SignalError>::empty() =~= errors@);
        errors
    }
}


} // verus!
