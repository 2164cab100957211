//! The graph: a store of nodes indexed by handle, and its mathematical model.

use core::marker::PhantomData;
use vstd::prelude::*;
use crate::lazy_immutable::{LazySignalsState, StateModel};
use crate::value::{reading_model, readings_model, Handle, Reading, ReadingModel, SignalError, Value};

verus! {

/// What a node is.
#[allow(inconsistent_fields)]
pub enum Kind<P, E> {
    /// Allocated, with nothing attached.
    Bare,
    /// A leaf cell, written only from outside.
    Signal,
    /// A cell derived from `sources` by `function`.
    Computed { function: P, sources: Vec<Handle> },
    /// A subscriber without a cell: `sources` feed its tuple, `triggers`
    /// only make it run.
    Effect { function: E, sources: Vec<Handle>, triggers: Vec<Handle> },
}

/// The mathematical content of a [`Kind`].
#[verifier::ext_equal]
#[allow(inconsistent_fields)]
pub enum KindModel<P, E> {
    Bare,
    Signal,
    Computed { function: P, sources: Seq<Handle> },
    Effect { function: E, sources: Seq<Handle>, triggers: Seq<Handle> },
}

impl<P, E> View for Kind<P, E> {
    type V = KindModel<P, E>;

    open spec fn view(&self) -> KindModel<P, E> {
        match *self {
            Kind::Bare => KindModel::Bare,
            Kind::Signal => KindModel::Signal,
            Kind::Computed { function, sources } => KindModel::Computed { function, sources: sources@ },
            Kind::Effect { function, sources, triggers } => KindModel::Effect {
                function,
                sources: sources@,
                triggers: triggers@,
            },
        }
    }
}

/// The mathematical content of a node.
#[verifier::ext_equal]
pub struct NodeModel<P, E> {
    pub kind: KindModel<P, E>,
    /// The node's cell; signals and computed nodes have one.
    pub cell: Option<StateModel>,
    /// The node's edges are not registered with its upstream cells yet.
    pub rebuild_subscribers: bool,
    /// A value was staged on the node's cell and awaits its commit.
    pub send_signal: bool,
    /// The node awaits evaluation.
    pub compute_memo: bool,
}

impl<P, E> NodeModel<P, E> {
    /// A node with nothing attached.
    pub open spec fn bare() -> Self {
        NodeModel {
            kind: KindModel::Bare,
            cell: None,
            rebuild_subscribers: false,
            send_signal: false,
            compute_memo: false,
        }
    }

    /// A signal that holds `initial`.
    pub open spec fn signal(initial: ReadingModel) -> Self {
        NodeModel {
            kind: KindModel::Signal,
            cell: Some(StateModel::fresh(initial)),
            rebuild_subscribers: false,
            send_signal: false,
            compute_memo: false,
        }
    }

    /// A computed node that has not been wired or evaluated.
    pub open spec fn computed(function: P, sources: Seq<Handle>) -> Self {
        NodeModel {
            kind: KindModel::Computed { function, sources },
            cell: Some(StateModel::fresh(None)),
            rebuild_subscribers: true,
            send_signal: false,
            compute_memo: true,
        }
    }

    /// An effect that has not been wired.
    pub open spec fn effect(function: E, sources: Seq<Handle>, triggers: Seq<Handle>) -> Self {
        NodeModel {
            kind: KindModel::Effect { function, sources, triggers },
            cell: None,
            rebuild_subscribers: true,
            send_signal: false,
            compute_memo: false,
        }
    }

    /// Signals and computed nodes, and no others, have a cell.
    pub open spec fn wf(self) -> bool {
        (self.kind is Signal || self.kind is Computed) <==> self.cell is Some
    }

    /// The handles whose values make up the node's tuple.
    pub open spec fn sources(self) -> Seq<Handle> {
        match self.kind {
            KindModel::Computed { sources, .. } => sources,
            KindModel::Effect { sources, .. } => sources,
            _ => Seq::empty(),
        }
    }

    /// The handles that make the node run without feeding its tuple.
    pub open spec fn triggers(self) -> Seq<Handle> {
        match self.kind {
            KindModel::Effect { triggers, .. } => triggers,
            _ => Seq::empty(),
        }
    }
}

/// The mathematical content of a graph: one slot per handle ever allocated,
/// empty once the node is removed.
#[verifier::ext_equal]
pub struct GraphModel<P, E> {
    pub slots: Seq<Option<NodeModel<P, E>>>,
}

impl<P, E> GraphModel<P, E> {
    /// Whether `h` names a node.
    pub open spec fn contains(self, h: Handle) -> bool {
        h.0 < self.slots.len() && self.slots[h.0 as int] is Some
    }

    /// The node that `h` names.
    pub open spec fn node(self, h: Handle) -> NodeModel<P, E>
        recommends
            self.contains(h),
    {
        self.slots[h.0 as int]->0
    }

    /// Whether `h` names a node with a cell.
    pub open spec fn has_cell(self, h: Handle) -> bool {
        self.contains(h) && self.node(h).cell is Some
    }

    /// The cell of the node that `h` names.
    pub open spec fn cell(self, h: Handle) -> StateModel
        recommends
            self.has_cell(h),
    {
        self.node(h).cell->0
    }

    /// Whether `h` names a computed node.
    pub open spec fn is_computed(self, h: Handle) -> bool {
        self.contains(h) && self.node(h).kind is Computed
    }

    /// Whether `h` names an effect.
    pub open spec fn is_effect(self, h: Handle) -> bool {
        self.contains(h) && self.node(h).kind is Effect
    }

    /// What a subscriber reads from `h`: the committed value of its cell, and
    /// nothing where `h` names no cell.
    pub open spec fn reading(self, h: Handle) -> ReadingModel {
        if self.has_cell(h) {
            self.cell(h).current
        } else {
            None
        }
    }

    /// The tuple read from `handles`, position by position.
    pub open spec fn readings(self, handles: Seq<Handle>) -> Seq<ReadingModel> {
        Seq::new(handles.len(), |i: int| self.reading(handles[i]))
    }

    /// The tuple handed to the function of the node that `h` names.
    pub open spec fn inputs(self, h: Handle) -> Seq<ReadingModel> {
        self.readings(self.node(h).sources())
    }

    /// The visible subscribers of `h`.
    pub open spec fn subscribers(self, h: Handle) -> Set<Handle> {
        if self.has_cell(h) {
            self.cell(h).subscribers
        } else {
            Set::empty()
        }
    }

    /// Every node is well formed, and every slot has a handle.
    pub open spec fn wf(self) -> bool {
        &&& self.slots.len() <= usize::MAX
        &&& forall|i: int|
            0 <= i < self.slots.len() && self.slots[i] is Some ==> (#[trigger] self.slots[i])->0.wf()
    }

    /// The graph with `node` in the slot of `h`.
    pub open spec fn with_node(self, h: Handle, node: NodeModel<P, E>) -> Self
        recommends
            h.0 < self.slots.len(),
    {
        GraphModel { slots: self.slots.update(h.0 as int, Some(node)) }
    }

    /// The graph with the cell of `h` replaced.
    pub open spec fn with_cell(self, h: Handle, cell: StateModel) -> Self
        recommends
            self.has_cell(h),
    {
        self.with_node(h, NodeModel { cell: Some(cell), ..self.node(h) })
    }

    /// The graph with one more node, which has nothing attached.
    pub open spec fn allocate(self) -> Self {
        GraphModel { slots: self.slots.push(Some(NodeModel::bare())) }
    }

    /// The graph without the node that `h` names.
    pub open spec fn remove(self, h: Handle) -> Self {
        if self.contains(h) {
            GraphModel { slots: self.slots.update(h.0 as int, None) }
        } else {
            self
        }
    }

    /// The upstream handles of the node that `h` names: its sources, then
    /// its triggers.
    pub open spec fn edges(self, h: Handle) -> Seq<Handle> {
        self.node(h).sources() + self.node(h).triggers()
    }

    /// Whether `h` names a node of the chosen sort (an effect, or else a
    /// computed node) that awaits wiring.
    pub open spec fn awaits_wiring(self, h: Handle, effects: bool) -> bool {
        &&& self.contains(h)
        &&& self.node(h).rebuild_subscribers
        &&& if effects {
            self.node(h).kind is Effect
        } else {
            self.node(h).kind is Computed
        }
    }

    /// The graph after `subscriber` asked to subscribe to `source`. A source
    /// without a cell is passed over.
    pub open spec fn subscribe(self, subscriber: Handle, source: Handle) -> Self {
        if self.has_cell(source) {
            self.with_cell(source, self.cell(source).register_subscriber(subscriber))
        } else {
            self
        }
    }

    /// The graph with the wiring mark of `h` cleared.
    pub open spec fn mark_wired(self, h: Handle) -> Self {
        if self.contains(h) {
            self.with_node(h, NodeModel { rebuild_subscribers: false, ..self.node(h) })
        } else {
            self
        }
    }

    /// Whether a commit of `h` reports a change: the node is marked for a
    /// commit, and what is staged on its cell is forced or differs from what
    /// is committed.
    pub open spec fn commit_reports(self, h: Handle) -> bool {
        self.has_cell(h) && self.node(h).send_signal && self.cell(h).commit_changes()
    }

    /// The graph after the commit of `h`. A node that is not marked for a
    /// commit stays as it is.
    pub open spec fn commit(self, h: Handle) -> Self {
        if self.contains(h) && self.node(h).send_signal {
            self.with_node(
                h,
                NodeModel {
                    cell: match self.node(h).cell {
                        Some(c) => Some(c.commit()),
                        None => None,
                    },
                    send_signal: false,
                    ..self.node(h)
                },
            )
        } else {
            self
        }
    }

    /// Whether `h` names a computed node that awaits evaluation.
    pub open spec fn awaits_compute(self, h: Handle) -> bool {
        self.is_computed(h) && self.node(h).compute_memo
    }

    /// The graph after the function of the computed node `h` produced
    /// `outcome`: the cell absorbs it, and the node no longer awaits
    /// evaluation.
    pub open spec fn evaluated(self, h: Handle, outcome: ReadingModel) -> Self
        recommends
            self.is_computed(h),
    {
        self.with_node(
            h,
            NodeModel {
                cell: Some(self.cell(h).absorb(outcome)),
                compute_memo: false,
                ..self.node(h)
            },
        )
    }

    /// What one evaluation of the computed node `h` is: its function was
    /// handed `args`, the committed values of its sources in order, and
    /// returned `out`; `after` is the graph that absorbed it, and `changed`
    /// says whether the cell reported a change.
    pub open spec fn evaluation(
        self,
        h: Handle,
        args: Vec<Reading>,
        out: Reading,
        after: Self,
        changed: bool,
    ) -> bool where P: Fn(Vec<Reading>) -> Reading {
        &&& readings_model(args@) == self.inputs(h)
        &&& call_ensures(self.node(h).kind->Computed_function, (args,), out)
        &&& after == self.evaluated(h, reading_model(out))
        &&& changed == self.cell(h).absorb_changes(reading_model(out))
    }

    /// What one run of the effect `h` is: its function was handed `args`,
    /// the committed values of its sources in order, and the outside state
    /// `state`, and gave the state back as `after`.
    pub open spec fn effect_run<S>(self, h: Handle, args: Vec<Reading>, state: S, after: S) -> bool where
        E: Fn(Vec<Reading>, S) -> S,
     {
        &&& readings_model(args@) == self.inputs(h)
        &&& call_ensures(self.node(h).kind->Effect_function, (args, state), after)
    }

    /// The graph after the staged subscribers of the cell of `h` became
    /// visible.
    pub open spec fn merge_subscribers(self, h: Handle) -> Self {
        if self.has_cell(h) {
            self.with_cell(h, self.cell(h).merge_subscribers())
        } else {
            self
        }
    }

    /// The graph after `value` was staged on the cell of `h`.
    pub open spec fn stage(self, h: Handle, value: ReadingModel, force: bool) -> Self
        recommends
            self.has_cell(h),
    {
        self.with_node(
            h,
            NodeModel {
                cell: Some(self.cell(h).merge_next(value, force)),
                send_signal: true,
                ..self.node(h)
            },
        )
    }
}

/// Whether every computed node's function accepts every tuple.
pub open spec fn memos_callable<P: Fn(Vec<Reading>) -> Reading, E>(g: GraphModel<P, E>) -> bool {
    forall|i: int, args: Vec<Reading>|
        0 <= i < g.slots.len() && g.slots[i] is Some && (#[trigger] g.slots[i])->0.kind is Computed
            ==> #[trigger] call_requires(g.slots[i]->0.kind->Computed_function, (args,))
}

/// Whether every effect's function accepts every tuple and every state.
pub open spec fn effects_callable<S, P, E: Fn(Vec<Reading>, S) -> S>(g: GraphModel<P, E>) -> bool {
    forall|i: int, args: Vec<Reading>, state: S|
        0 <= i < g.slots.len() && g.slots[i] is Some && (#[trigger] g.slots[i])->0.kind is Effect
            ==> #[trigger] call_requires(g.slots[i]->0.kind->Effect_function, (args, state))
}

/// A copy of a list of handles.
pub fn copy_handles(list: &Vec<Handle>) -> (copy: Vec<Handle>)
    ensures
        copy@ == list@,
{
    let mut copy: Vec<Handle> = Vec::new();
    let mut i: usize = 0;
    while i < list.len()
        invariant
            i <= list.len(),
            copy@ == list@.take(i as int),
        decreases list.len() - i,
    {
        copy.push(list[i]);
        assert(list@.take(i + 1) =~= list@.take(i as int).push(list@[i as int]));
        i += 1;
    }
    assert(list@.take(i as int) =~= list@);
    copy
}

/// One node of a graph.
pub struct Node<P, E> {
    kind: Kind<P, E>,
    cell: Option<LazySignalsState>,
    rebuild_subscribers: bool,
    send_signal: bool,
    compute_memo: bool,
}

impl<P, E> View for Node<P, E> {
    type V = NodeModel<P, E>;

    closed spec fn view(&self) -> NodeModel<P, E> {
        NodeModel {
            kind: self.kind@,
            cell: match self.cell {
                Some(c) => Some(c@),
                None => None,
            },
            rebuild_subscribers: self.rebuild_subscribers,
            send_signal: self.send_signal,
            compute_memo: self.compute_memo,
        }
    }
}

impl<P, E> Node<P, E> {
    /// A signal that holds `initial`.
    pub fn signal(initial: Reading) -> (node: Self)
        ensures
            node@ == NodeModel::<P, E>::signal(reading_model(initial)),
    {
        Node {
            kind: Kind::Signal,
            cell: Some(LazySignalsState::new(initial)),
            rebuild_subscribers: false,
            send_signal: false,
            compute_memo: false,
        }
    }

    /// A computed node with an empty cell, marked for wiring and for its
    /// first evaluation.
    pub fn computed(function: P, sources: Vec<Handle>) -> (node: Self)
        ensures
            node@ == NodeModel::<P, E>::computed(function, sources@),
    {
        Node {
            kind: Kind::Computed { function, sources },
            cell: Some(LazySignalsState::new(None)),
            rebuild_subscribers: true,
            send_signal: false,
            compute_memo: true,
        }
    }

    /// An effect, marked for wiring.
    pub fn effect(function: E, sources: Vec<Handle>, triggers: Vec<Handle>) -> (node: Self)
        ensures
            node@ == NodeModel::<P, E>::effect(function, sources@, triggers@),
    {
        Node {
            kind: Kind::Effect { function, sources, triggers },
            cell: None,
            rebuild_subscribers: true,
            send_signal: false,
            compute_memo: false,
        }
    }
}

/// A reactive graph. `P` is the type of the functions of computed nodes, `E`
/// that of effects, and `S` the outside state that effects work on.
pub struct SignalGraph<P, E, S> {
    nodes: Vec<Option<Node<P, E>>>,
    state: PhantomData<S>,
}

impl<P, E, S> View for SignalGraph<P, E, S> {
    type V = GraphModel<P, E>;

    closed spec fn view(&self) -> GraphModel<P, E> {
        GraphModel {
            slots: Seq::new(
                self.nodes@.len(),
                |i: int|
                    match self.nodes@[i] {
                        Some(n) => Some(n@),
                        None => None,
                    },
            ),
        }
    }
}

impl<P: Fn(Vec<Reading>) -> Reading, E: Fn(Vec<Reading>, S) -> S, S> SignalGraph<P, E, S> {
    /// The invariant of a graph: its nodes are well formed and its functions
    /// accept whatever they are handed.
    pub open spec fn wf(&self) -> bool {
        &&& self@.wf()
        &&& memos_callable(self@)
        &&& effects_callable::<S, P, E>(self@)
    }

    /// A graph without nodes.
    pub fn new() -> (g: Self)
        ensures
            g.wf(),
            g@.slots.len() == 0,
    {
        SignalGraph { nodes: Vec::new(), state: PhantomData }
    }

    /// Allocates a node with nothing attached and returns its handle, which
    /// no node had before.
    pub fn allocate(&mut self) -> (h: Handle)
        requires
            old(self).wf(),
        ensures
            final(self).wf(),
            h.0 == old(self)@.slots.len(),
            final(self)@ == old(self)@.allocate(),
    {
        self.nodes.push(
            Some(
                Node {
                    kind: Kind::Bare,
                    cell: None,
                    rebuild_subscribers: false,
                    send_signal: false,
                    compute_memo: false,
                },
            ),
        );
        let h = Handle(self.nodes.len() - 1);
        assert(self@.slots =~= old(self)@.allocate().slots);
        h
    }

    /// Whether `h` names a node.
    pub fn contains(&self, h: Handle) -> (r: bool)
        ensures
            r == self@.contains(h),
    {
        h.0 < self.nodes.len() && self.nodes[h.0].is_some()
    }

    /// Whether `h` names a node with a cell.
    pub fn has_cell(&self, h: Handle) -> (r: bool)
        ensures
            r == self@.has_cell(h),
    {
        if h.0 >= self.nodes.len() {
            return false;
        }
        match &self.nodes[h.0] {
            Some(node) => node.cell.is_some(),
            None => false,
        }
    }

    /// Removes the node that `h` names, if there is one, and says whether
    /// there was. Edges that name `h` stay behind and lead nowhere.
    pub fn remove(&mut self, h: Handle) -> (removed: bool)
        requires
            old(self).wf(),
        ensures
            final(self).wf(),
            removed == old(self)@.contains(h),
            final(self)@ == old(self)@.remove(h),
    {
        if !self.contains(h) {
            return false;
        }
        self.nodes[h.0] = None;
        assert(self@.slots =~= old(self)@.remove(h).slots);
        true
    }

    /// Puts `node` in the slot of `h`, which must have been allocated, in
    /// place of what is there.
    pub fn attach(&mut self, h: Handle, node: Node<P, E>)
        requires
            old(self).wf(),
            h.0 < old(self)@.slots.len(),
            node@.wf(),
            node@.kind is Computed ==> forall|args: Vec<Reading>| #[trigger]
                call_requires(node@.kind->Computed_function, (args,)),
            node@.kind is Effect ==> forall|args: Vec<Reading>, state: S| #[trigger]
                call_requires(node@.kind->Effect_function, (args, state)),
        ensures
            final(self).wf(),
            final(self)@ == old(self)@.with_node(h, node@),
    {
        self.nodes[h.0] = Some(node);
        assert(self@.slots =~= old(self)@.with_node(h, node@).slots);
    }

    /// Stages `value` on the cell of `h` and marks the node for the next
    /// commit. Where `h` names no cell nothing changes and the answer is
    /// `MissingHandle`.
    pub fn merge_next(&mut self, h: Handle, value: Reading, force: bool) -> (r: Result<(), SignalError>)
        requires
            old(self).wf(),
        ensures
            final(self).wf(),
            old(self)@.has_cell(h) ==> r is Ok && final(self)@ == old(self)@.stage(
                h,
                reading_model(value),
                force,
            ),
            !old(self)@.has_cell(h) ==> r == Err::<(), SignalError>(SignalError::MissingHandle(h))
                && final(self)@ == old(self)@,
    {
        if !self.has_cell(h) {
            return Err(SignalError::MissingHandle(h));
        }
        match &mut self.nodes[h.0] {
            Some(node) => {
                match &mut node.cell {
                    Some(cell) => {
                        cell.merge_next(value, force);
                    },
                    None => {},
                }
                node.send_signal = true;
            },
            None => {},
        }
        assert(self@.slots =~= old(self)@.stage(h, reading_model(value), force).slots);
        Ok(())
    }

    /// Registers `subscriber` with the cell of `source`, where it stays
    /// staged until the next merge. A source without a cell is passed over.
    pub fn subscribe(&mut self, subscriber: Handle, source: Handle)
        requires
            old(self).wf(),
        ensures
            final(self).wf(),
            final(self)@ == old(self)@.subscribe(subscriber, source),
    {
        if !self.has_cell(source) {
            return ;
        }
        match &mut self.nodes[source.0] {
            Some(node) => {
                match &mut node.cell {
                    Some(cell) => {
                        cell.register_subscriber(subscriber);
                    },
                    None => {},
                }
            },
            None => {},
        }
        assert(self@.slots =~= old(self)@.subscribe(subscriber, source).slots);
    }

    /// The upstream handles of `h`, if `h` names a node of the chosen sort
    /// that awaits wiring.
    pub fn pending_edges(&self, h: Handle, effects: bool) -> (r: Option<Vec<Handle>>)
        ensures
            r is Some <==> self@.awaits_wiring(h, effects),
            r is Some ==> r->0@ == self@.edges(h),
    {
        if h.0 >= self.nodes.len() {
            return None;
        }
        match &self.nodes[h.0] {
            Some(node) => {
                if !node.rebuild_subscribers {
                    return None;
                }
                match &node.kind {
                    Kind::Computed { function, sources } => {
                        if effects {
                            None
                        } else {
                            let list = copy_handles(sources);
                            assert(list@ =~= self@.edges(h));
                            Some(list)
                        }
                    },
                    Kind::Effect { function, sources, triggers } => {
                        if effects {
                            let mut list = copy_handles(sources);
                            let mut k: usize = 0;
                            while k < triggers.len()
                                invariant
                                    k <= triggers.len(),
                                    list@ == sources@ + triggers@.take(k as int),
                                decreases triggers.len() - k,
                            {
                                list.push(triggers[k]);
                                assert(triggers@.take(k + 1) =~= triggers@.take(k as int).push(triggers@[k as int]));
                                assert(list@ =~= sources@ + triggers@.take(k + 1));
                                k += 1;
                            }
                            assert(triggers@.take(k as int) =~= triggers@);
                            Some(list)
                        } else {
                            None
                        }
                    },
                    _ => None,
                }
            },
            None => None,
        }
    }

    /// Clears the wiring mark of `h`.
    pub fn mark_wired(&mut self, h: Handle)
        requires
            old(self).wf(),
        ensures
            final(self).wf(),
            final(self)@ == old(self)@.mark_wired(h),
    {
        if !self.contains(h) {
            return ;
        }
        match &mut self.nodes[h.0] {
            Some(node) => {
                node.rebuild_subscribers = false;
            },
            None => {},
        }
        assert(self@.slots =~= old(self)@.mark_wired(h).slots);
    }

    /// The number of slots: every handle of the graph lies below it.
    pub fn capacity(&self) -> (n: usize)
        ensures
            n == self@.slots.len(),
    {
        self.nodes.len()
    }

    /// Commits what is staged on the cell of `h`, if the node is marked for
    /// it, clears the mark and says whether the cell changed.
    pub fn commit(&mut self, h: Handle) -> (changed: bool)
        requires
            old(self).wf(),
        ensures
            final(self).wf(),
            final(self)@ == old(self)@.commit(h),
            changed == old(self)@.commit_reports(h),
    {
        if !self.contains(h) {
            return false;
        }
        let mut changed = false;
        match &mut self.nodes[h.0] {
            Some(node) => {
                if node.send_signal {
                    match &mut node.cell {
                        Some(cell) => {
                            changed = cell.commit();
                        },
                        None => {},
                    }
                    node.send_signal = false;
                }
            },
            None => {},
        }
        assert(self@.slots =~= old(self)@.commit(h).slots);
        changed
    }

    /// Whether `h` names a computed node.
    pub fn is_computed(&self, h: Handle) -> (r: bool)
        ensures
            r == self@.is_computed(h),
    {
        if h.0 >= self.nodes.len() {
            return false;
        }
        match &self.nodes[h.0] {
            Some(node) => match &node.kind {
                Kind::Computed { function, sources } => true,
                _ => false,
            },
            None => false,
        }
    }

    /// Whether `h` names an effect.
    pub fn is_effect(&self, h: Handle) -> (r: bool)
        ensures
            r == self@.is_effect(h),
    {
        if h.0 >= self.nodes.len() {
            return false;
        }
        match &self.nodes[h.0] {
            Some(node) => match &node.kind {
                Kind::Effect { function, sources, triggers } => true,
                _ => false,
            },
            None => false,
        }
    }

    /// Whether `h` names a computed node that awaits evaluation.
    pub fn awaits_compute(&self, h: Handle) -> (r: bool)
        ensures
            r == self@.awaits_compute(h),
    {
        if h.0 >= self.nodes.len() {
            return false;
        }
        match &self.nodes[h.0] {
            Some(node) => match &node.kind {
                Kind::Computed { function, sources } => node.compute_memo,
                _ => false,
            },
            None => false,
        }
    }

    /// The sources of the node that `h` names; none where it names no node.
    pub fn sources(&self, h: Handle) -> (list: Vec<Handle>)
        ensures
            self@.contains(h) ==> list@ == self@.node(h).sources(),
            !self@.contains(h) ==> list@.len() == 0,
    {
        if h.0 >= self.nodes.len() {
            return Vec::new();
        }
        match &self.nodes[h.0] {
            Some(node) => match &node.kind {
                Kind::Computed { function, sources } => copy_handles(sources),
                Kind::Effect { function, sources, triggers } => copy_handles(sources),
                _ => Vec::new(),
            },
            None => Vec::new(),
        }
    }

    /// The triggers of the node that `h` names; none where it names no node.
    pub fn triggers(&self, h: Handle) -> (list: Vec<Handle>)
        ensures
            self@.contains(h) ==> list@ == self@.node(h).triggers(),
            !self@.contains(h) ==> list@.len() == 0,
    {
        if h.0 >= self.nodes.len() {
            return Vec::new();
        }
        match &self.nodes[h.0] {
            Some(node) => match &node.kind {
                Kind::Effect { function, sources, triggers } => copy_handles(triggers),
                _ => Vec::new(),
            },
            None => Vec::new(),
        }
    }

    /// The visible subscribers of `h`.
    pub fn subscribers(&self, h: Handle) -> (list: Vec<Handle>)
        ensures
            list@.to_set() == self@.subscribers(h),
    {
        if h.0 < self.nodes.len() {
            match &self.nodes[h.0] {
                Some(node) => match &node.cell {
                    Some(cell) => {
                        return copy_handles(cell.subscribers());
                    },
                    None => {},
                },
                None => {},
            }
        }
        let list: Vec<Handle> = Vec::new();
        assert(list@.to_set() =~= Set::<Handle>::empty());
        list
    }

    /// Evaluates the computed node `h` once: hands its function the
    /// committed values of its sources, lets the cell absorb the outcome and
    /// says whether the cell changed. Where `h` names no computed node
    /// nothing changes and the answer is `MissingHandle`.
    pub fn evaluate(&mut self, h: Handle) -> (r: Result<bool, SignalError>)
        requires
            old(self).wf(),
        ensures
            final(self).wf(),
            !old(self)@.is_computed(h) ==> r == Err::<bool, SignalError>(SignalError::MissingHandle(h))
                && final(self)@ == old(self)@,
            old(self)@.is_computed(h) ==> r is Ok && exists|args: Vec<Reading>, out: Reading| #[trigger]
                old(self)@.evaluation(h, args, out, final(self)@, r->Ok_0),
    {
        if !self.is_computed(h) {
            return Err(SignalError::MissingHandle(h));
        }
        let ghost before = self@;
        let args = self.gather(&self.sources(h));
        let ghost handed = args;
        let out = match &self.nodes[h.0] {
            Some(node) => match &node.kind {
                Kind::Computed { function, sources } => {
                    proof {
                        assert(self@.slots[h.0 as int] == Some(node@));
                        assert(self@.slots[h.0 as int]->0.kind->Computed_function == *function);
                        assert(call_requires(*function, (args,)));
                    }
                    function(args)
                },
                _ => None,
            },
            None => None,
        };
        let ghost produced = out;
        let mut changed = false;
        match &mut self.nodes[h.0] {
            Some(node) => {
                match &mut node.cell {
                    Some(cell) => {
                        if out.is_some() {
                            cell.merge_next(out, false);
                            changed = cell.commit();
                        }
                    },
                    None => {},
                }
                node.compute_memo = false;
            },
            None => {},
        }
        let r: Result<bool, SignalError> = Ok(changed);
        proof {
            assert(self@.slots =~= before.evaluated(h, reading_model(produced)).slots);
            assert(old(self)@.evaluation(h, handed, produced, self@, r->Ok_0));
        }
        r
    }

    /// Runs the effect `h` once on `state`: hands its function the committed
    /// values of its sources and the state, and returns the state that comes
    /// back. Where `h` names no effect the state comes back as it went in.
    pub fn run_effect(&self, h: Handle, state: S) -> (after: S)
        requires
            self.wf(),
        ensures
            !self@.is_effect(h) ==> after == state,
            self@.is_effect(h) ==> exists|args: Vec<Reading>| #[trigger]
                self@.effect_run(h, args, state, after),
    {
        if !self.is_effect(h) {
            return state;
        }
        let args = self.gather(&self.sources(h));
        let ghost handed = args;
        match &self.nodes[h.0] {
            Some(node) => match &node.kind {
                Kind::Effect { function, sources, triggers } => {
                    proof {
                        assert(self@.slots[h.0 as int] == Some(node@));
                        assert(self@.slots[h.0 as int]->0.kind->Effect_function == *function);
                        assert(call_requires(*function, (args, state)));
                    }
                    let after = function(args, state);
                    assert(self@.effect_run(h, handed, state, after));
                    after
                },
                _ => state,
            },
            None => state,
        }
    }

    /// Makes the staged subscribers of the cell of `h` visible.
    pub fn merge_subscribers(&mut self, h: Handle)
        requires
            old(self).wf(),
        ensures
            final(self).wf(),
            final(self)@ == old(self)@.merge_subscribers(h),
    {
        if !self.has_cell(h) {
            return ;
        }
        match &mut self.nodes[h.0] {
            Some(node) => {
                match &mut node.cell {
                    Some(cell) => {
                        cell.merge_subscribers();
                    },
                    None => {},
                }
            },
            None => {},
        }
        assert(self@.slots =~= old(self)@.merge_subscribers(h).slots);
    }

    /// The committed value of the cell of `h`: a snapshot that no staged
    /// value shows in. Where `h` names no cell the answer is the error
    /// `MissingHandle`.
    pub fn read(&self, h: Handle) -> (r: Reading)
        ensures
            self@.has_cell(h) ==> reading_model(r) == self@.cell(h).current,
            !self@.has_cell(h) ==> r == Some(Err::<Value, SignalError>(SignalError::MissingHandle(h))),
    {
        if h.0 >= self.nodes.len() {
            return Some(Err(SignalError::MissingHandle(h)));
        }
        match &self.nodes[h.0] {
            Some(node) => match &node.cell {
                Some(cell) => cell.read(),
                None => Some(Err(SignalError::MissingHandle(h))),
            },
            None => Some(Err(SignalError::MissingHandle(h))),
        }
    }

    /// The committed value of the cell of `h`, or why there is none.
    pub fn value(&self, h: Handle) -> (r: Result<Value, SignalError>)
        ensures
            !self@.has_cell(h) ==> r == Err::<Value, SignalError>(SignalError::MissingHandle(h)),
            self@.has_cell(h) ==> match self@.cell(h).current {
                None => r == Err::<Value, SignalError>(SignalError::ReadBeforeInitialized),
                Some(Err(e)) => r == Err::<Value, SignalError>(e),
                Some(Ok(v)) => r is Ok && r->Ok_0@ == v,
            },
    {
        if h.0 >= self.nodes.len() {
            return Err(SignalError::MissingHandle(h));
        }
        match &self.nodes[h.0] {
            Some(node) => match &node.cell {
                Some(cell) => cell.value(),
                None => Err(SignalError::MissingHandle(h)),
            },
            None => Err(SignalError::MissingHandle(h)),
        }
    }

    /// What a subscriber reads from `h`.
    pub fn reading(&self, h: Handle) -> (r: Reading)
        ensures
            reading_model(r) == self@.reading(h),
    {
        if h.0 >= self.nodes.len() {
            return None;
        }
        match &self.nodes[h.0] {
            Some(node) => match &node.cell {
                Some(cell) => cell.read(),
                None => None,
            },
            None => None,
        }
    }

    /// The tuple read from `handles`, position by position.
    pub fn gather(&self, handles: &Vec<Handle>) -> (tuple: Vec<Reading>)
        ensures
            readings_model(tuple@) == self@.readings(handles@),
    {
        let mut tuple: Vec<Reading> = Vec::new();
        let mut i: usize = 0;
        while i < handles.len()
            invariant
                i <= handles.len(),
                tuple@.len() == i,
                forall|k: int| 0 <= k < i ==> reading_model(#[trigger] tuple@[k]) == self@.reading(handles@[k]),
            decreases handles.len() - i,
        {
            tuple.push(self.reading(handles[i]));
            i += 1;
        }
        assert(readings_model(tuple@) =~= self@.readings(handles@));
        tuple
    }
}

} // verus!
