//! What an application calls: building nodes, feeding signals, reading
//! cells, and the phases of a tick in their order.

use vstd::prelude::*;
use crate::commands::{
    CreateComputedCommand, CreateEffectCommand, CreateStateCommand, SendSignalCommand,
    TriggerSignalCommand,
};
use crate::framework::{GraphModel, NodeModel, SignalGraph};
use crate::systems::computed::{compute_memos, Propagation};
use crate::systems::effects::{dispatch_effects, ran};
use crate::systems::init::{init_effects, init_memos};
use crate::systems::signals::send_signals;
use crate::value::{Handle, Reading, SignalError, Value};

verus! {

/// What one tick did.
pub struct TickReport {
    /// The cells whose commit reported a change, in ascending order.
    pub frontier: Vec<Handle>,
    /// What propagation did.
    pub propagation: Propagation,
    /// The effects that ran, in the order in which they ran.
    pub fired: Vec<Handle>,
}

impl<P, E> GraphModel<P, E> {
    /// The graph after the first phase of a tick: the new computed nodes
    /// and effects are wired, and the staged values are committed.
    pub open spec fn begun(self) -> Self {
        self.wired(false).wired(true).committed()
    }
}

/// Wiring touches neither what a cell holds nor the marks for a commit, so
/// it decides nothing about the frontier.
pub proof fn lemma_wiring_keeps_commits<P, E>(g: GraphModel<P, E>, effects: bool, h: Handle)
    ensures
        g.wired(effects).commit_reports(h) == g.commit_reports(h),
{
}

/// What one whole tick is: the graph `before` is begun, propagated into some
/// graph in which the due effects run on `state` and give back `end`, and
/// the staged subscribers of that graph are merged into `after`.
pub open spec fn ticks<S, P: Fn(Vec<Reading>) -> Reading, E: Fn(Vec<Reading>, S) -> S>(
    before: GraphModel<P, E>,
    after: GraphModel<P, E>,
    frontier: Seq<Handle>,
    evaluated: Seq<Handle>,
    changed: Seq<Handle>,
    refused: Seq<Handle>,
    fired: Seq<Handle>,
    state: S,
    end: S,
) -> bool {
    &&& forall|h: Handle| frontier.contains(h) <==> before.commit_reports(h)
    &&& exists|mid: GraphModel<P, E>|
        {
            &&& #[trigger] before.begun().propagates(frontier, mid, evaluated, changed, refused)
            &&& after == mid.merged()
            &&& forall|e: Handle| fired.contains(e) <==> mid.fires(frontier + changed, e)
            &&& ran(mid, fired, state, end)
        }
}

impl<P: Fn(Vec<Reading>) -> Reading, E: Fn(Vec<Reading>, S) -> S, S> SignalGraph<P, E, S> {
    /// Creates a signal that holds `initial` and returns its handle.
    pub fn create_signal(&mut self, initial: Value) -> (h: Handle)
        requires
            old(self).wf(),
        ensures
            final(self).wf(),
            h.0 == old(self)@.slots.len(),
            final(self)@ == old(self)@.allocate().with_node(h, NodeModel::signal(Some(Ok(initial@)))),
    {
        let h = self.allocate();
        let _ = (CreateStateCommand { state: h, data: initial }).apply(self);
        h
    }

    /// Creates a computed node and returns its handle. Its cell is empty
    /// until the next propagation evaluates it; its sources hear of it from
    /// the tick after the next wiring on.
    pub fn create_computed(&mut self, function: P, sources: Vec<Handle>) -> (h: Handle)
        requires
            old(self).wf(),
            forall|args: Vec<Reading>| #[trigger] call_requires(function, (args,)),
        ensures
            final(self).wf(),
            h.0 == old(self)@.slots.len(),
            final(self)@ == old(self)@.allocate().with_node(h, NodeModel::computed(function, sources@)),
    {
        let h = self.allocate();
        let _ = (CreateComputedCommand { computed: h, function, sources }).apply(self);
        h
    }

    /// Creates an effect and returns its handle.
    pub fn create_effect(&mut self, function: E, sources: Vec<Handle>, triggers: Vec<Handle>) -> (h: Handle)
        requires
            old(self).wf(),
            forall|args: Vec<Reading>, state: S| #[trigger] call_requires(function, (args, state)),
        ensures
            final(self).wf(),
            h.0 == old(self)@.slots.len(),
            final(self)@ == old(self)@.allocate().with_node(
                h,
                NodeModel::effect(function, sources@, triggers@),
            ),
    {
        let h = self.allocate();
        let _ = (CreateEffectCommand { effect: h, function, sources, triggers }).apply(self);
        h
    }

    /// Stages `value` on the cell of `h`: the next tick takes it if it
    /// differs from what the cell holds. Where `h` names no cell nothing
    /// changes and the answer is `MissingHandle`.
    pub fn send(&mut self, h: Handle, value: Value) -> (r: Result<(), SignalError>)
        requires
            old(self).wf(),
        ensures
            final(self).wf(),
            old(self)@.has_cell(h) ==> r is Ok && final(self)@ == old(self)@.stage(
                h,
                Some(Ok(value@)),
                false,
            ),
            !old(self)@.has_cell(h) ==> r == Err::<(), SignalError>(SignalError::MissingHandle(h))
                && final(self)@ == old(self)@,
    {
        (SendSignalCommand { signal: h, data: value }).apply(self)
    }

    /// Stages `value` on the cell of `h`: the next tick takes it and
    /// counts it as a change whatever the cell holds. Where `h` names no cell
    /// nothing changes and the answer is `MissingHandle`.
    pub fn trigger(&mut self, h: Handle, value: Value) -> (r: Result<(), SignalError>)
        requires
            old(self).wf(),
        ensures
            final(self).wf(),
            old(self)@.has_cell(h) ==> r is Ok && final(self)@ == old(self)@.stage(
                h,
                Some(Ok(value@)),
                true,
            ),
            !old(self)@.has_cell(h) ==> r == Err::<(), SignalError>(SignalError::MissingHandle(h))
                && final(self)@ == old(self)@,
    {
        (TriggerSignalCommand { signal: h, data: value }).apply(self)
    }

    /// The first phase of a tick: wires the nodes created since the last
    /// one, commits the staged values and returns the frontier.
    pub fn begin_tick(&mut self) -> (frontier: Vec<Handle>)
        requires
            old(self).wf(),
        ensures
            final(self).wf(),
            final(self)@ == old(self)@.begun(),
            forall|h: Handle| frontier@.contains(h) <==> old(self)@.commit_reports(h),
            forall|a: int, b: int| 0 <= a < b < frontier@.len() ==> frontier@[a].0 < frontier@[b].0,
    {
        init_memos(self);
        init_effects(self);
        let frontier = send_signals(self);
        proof {
            assert forall|h: Handle| frontier@.contains(h) <==> old(self)@.commit_reports(h) by {
                lemma_wiring_keeps_commits(old(self)@, false, h);
                lemma_wiring_keeps_commits(old(self)@.wired(false), true, h);
            }
        }
        frontier
    }

    /// The second phase of a tick: brings the computed nodes up to date.
    pub fn propagate(&mut self, frontier: &Vec<Handle>) -> (report: Propagation)
        requires
            old(self).wf(),
        ensures
            final(self).wf(),
            old(self)@.propagates(
                frontier@,
                final(self)@,
                report.evaluated@,
                report.changed@,
                report.refused@,
            ),
    {
        compute_memos(self, frontier)
    }

    /// The last phase of a tick: runs the effects that are due on `state`
    /// and makes the staged subscribers visible. Returns the state and the
    /// effects that ran.
    pub fn dispatch_effects(&mut self, frontier: &Vec<Handle>, changed: &Vec<Handle>, state: S) -> (r: (
        S,
        Vec<Handle>,
    ))
        requires
            old(self).wf(),
        ensures
            final(self).wf(),
            final(self)@ == old(self)@.merged(),
            forall|e: Handle| r.1@.contains(e) <==> old(self)@.fires(frontier@ + changed@, e),
            forall|a: int, b: int| 0 <= a < b < r.1@.len() ==> r.1@[a].0 < r.1@[b].0,
            ran(old(self)@, r.1@, state, r.0),
    {
        dispatch_effects(self, frontier, changed, state)
    }

    /// One whole tick: the three phases in their order.
    pub fn tick(&mut self, state: S) -> (r: (S, TickReport))
        requires
            old(self).wf(),
        ensures
            final(self).wf(),
            ticks(
                old(self)@,
                final(self)@,
                r.1.frontier@,
                r.1.propagation.evaluated@,
                r.1.propagation.changed@,
                r.1.propagation.refused@,
                r.1.fired@,
                state,
                r.0,
            ),
    {
        let frontier = self.begin_tick();
        let propagation = self.propagate(&frontier);
        let ghost mid = self@;
        let (end, fired) = self.dispatch_effects(&frontier, &propagation.changed, state);
        proof {
            assert(old(self)@.begun().propagates(
                frontier@,
                mid,
                propagation.evaluated@,
                propagation.changed@,
                propagation.refused@,
            ));
        }
        (end, TickReport { frontier, propagation, fired })
    }
}

} // verus!
