//! Wiring: every newly created node is registered as a subscriber with the
//! cells that it names.

use vstd::prelude::*;
use crate::framework::{GraphModel, NodeModel, SignalGraph};
use crate::lazy_immutable::StateModel;
use crate::value::{Handle, Reading};

verus! {

impl<P, E> GraphModel<P, E> {
    /// The subscribers that `source` gains when the nodes below `upto` of
    /// the chosen sort are wired: those that await wiring and name it.
    pub open spec fn wiring_adds(self, source: Handle, effects: bool, upto: int) -> Set<Handle> {
        Set::new(
            |n: Handle| n.0 < upto && self.awaits_wiring(n, effects) && self.edges(n).contains(source),
        )
    }

    /// Slot `j` after the nodes below `upto` of the chosen sort were wired.
    pub open spec fn wired_slot(self, j: int, effects: bool, upto: int) -> Option<NodeModel<P, E>> {
        match self.slots[j] {
            None => None,
            Some(node) => Some(
                NodeModel {
                    cell: match node.cell {
                        Some(c) => Some(
                            StateModel {
                                staged: c.staged.union(self.wiring_adds(Handle(j as usize), effects, upto)),
                                ..c
                            },
                        ),
                        None => None,
                    },
                    rebuild_subscribers: node.rebuild_subscribers && !(j < upto && self.awaits_wiring(
                        Handle(j as usize),
                        effects,
                    )),
                    ..node
                },
            ),
        }
    }

    /// The graph after the nodes below `upto` of the chosen sort were wired.
    pub open spec fn wired_upto(self, effects: bool, upto: int) -> Self {
        GraphModel { slots: Seq::new(self.slots.len(), |j: int| self.wired_slot(j, effects, upto)) }
    }

    /// The graph after every node of the chosen sort (effects, or else
    /// computed nodes) that awaited wiring was wired: each is staged as a
    /// subscriber with every cell among its sources and triggers, and its
    /// mark is cleared. Nothing else changes; in particular no visible
    /// subscriber set does.
    pub open spec fn wired(self, effects: bool) -> Self {
        self.wired_upto(effects, self.slots.len() as int)
    }

    /// The graph after `subscriber` was staged with every cell in `sources`.
    pub open spec fn subscribed(self, subscriber: Handle, sources: Seq<Handle>) -> Self {
        GraphModel {
            slots: Seq::new(
                self.slots.len(),
                |j: int|
                    match self.slots[j] {
                        None => None,
                        Some(node) => Some(
                            NodeModel {
                                cell: match node.cell {
                                    Some(c) => Some(
                                        if sources.contains(Handle(j as usize)) {
                                            c.register_subscriber(subscriber)
                                        } else {
                                            c
                                        },
                                    ),
                                    None => None,
                                },
                                ..node
                            },
                        ),
                    },
            ),
        }
    }
}

proof fn lemma_subscribed_none<P, E>(g: GraphModel<P, E>, subscriber: Handle)
    ensures
        g.subscribed(subscriber, Seq::empty()) == g,
{
    assert(g.subscribed(subscriber, Seq::empty()).slots =~= g.slots);
}

proof fn lemma_subscribed_step<P, E>(g: GraphModel<P, E>, subscriber: Handle, list: Seq<Handle>, k: int)
    requires
        0 <= k < list.len(),
        g.slots.len() <= usize::MAX,
    ensures
        g.subscribed(subscriber, list.take(k)).subscribe(subscriber, list[k]) == g.subscribed(
            subscriber,
            list.take(k + 1),
        ),
{
    let before = g.subscribed(subscriber, list.take(k));
    let after = g.subscribed(subscriber, list.take(k + 1));
    let step = before.subscribe(subscriber, list[k]);
    assert(list.take(k + 1) =~= list.take(k).push(list[k]));
    assert forall|x: Handle| list.take(k + 1).contains(x) <==> (list.take(k).contains(x) || x == list[k]) by {
        if list.take(k).contains(x) {
            let w = choose|w: int| 0 <= w < list.take(k).len() && list.take(k)[w] == x;
            assert(list.take(k + 1)[w] == x);
        }
        if x == list[k] {
            assert(list.take(k + 1)[k] == x);
        }
    }
    assert forall|j: int| 0 <= j < g.slots.len() implies #[trigger] step.slots[j] =~~= after.slots[j] by {
        let hj = Handle(j as usize);
        assert(hj.0 == j);
        if g.slots[j] is Some && g.slots[j]->0.cell is Some {
            let c = g.slots[j]->0.cell->0;
            assert(c.register_subscriber(subscriber).register_subscriber(subscriber)
                =~~= c.register_subscriber(subscriber));
        }
    }
    assert(step.slots =~~= after.slots);
}

proof fn lemma_wired_skip<P, E>(g: GraphModel<P, E>, effects: bool, i: int)
    requires
        0 <= i < g.slots.len(),
        g.slots.len() <= usize::MAX,
        !g.awaits_wiring(Handle(i as usize), effects),
    ensures
        g.wired_upto(effects, i) == g.wired_upto(effects, i + 1),
{
    assert forall|j: int| 0 <= j < g.slots.len() implies g.wired_slot(j, effects, i) =~~= g.wired_slot(
        j,
        effects,
        i + 1,
    ) by {
        assert(g.wiring_adds(Handle(j as usize), effects, i) =~= g.wiring_adds(
            Handle(j as usize),
            effects,
            i + 1,
        ));
    }
    assert(g.wired_upto(effects, i).slots =~~= g.wired_upto(effects, i + 1).slots);
}

proof fn lemma_wired_step<P, E>(g: GraphModel<P, E>, effects: bool, i: int)
    requires
        0 <= i < g.slots.len(),
        g.slots.len() <= usize::MAX,
        g.awaits_wiring(Handle(i as usize), effects),
    ensures
        g.wired_upto(effects, i).subscribed(Handle(i as usize), g.edges(Handle(i as usize))).mark_wired(
            Handle(i as usize),
        ) == g.wired_upto(effects, i + 1),
{
    let h = Handle(i as usize);
    let done = g.wired_upto(effects, i).subscribed(h, g.edges(h)).mark_wired(h);
    let want = g.wired_upto(effects, i + 1);
    assert forall|j: int| 0 <= j < g.slots.len() implies #[trigger] done.slots[j] =~~= want.slots[j] by {
        let hj = Handle(j as usize);
        assert(hj.0 == j);
        let more = if g.edges(h).contains(hj) {
            g.wiring_adds(hj, effects, i).insert(h)
        } else {
            g.wiring_adds(hj, effects, i)
        };
        assert(g.wiring_adds(hj, effects, i + 1) =~= more);
    }
    assert(done.slots =~~= want.slots);
}

proof fn lemma_wired_zero<P, E>(g: GraphModel<P, E>, effects: bool)
    ensures
        g.wired_upto(effects, 0) == g,
{
    assert forall|j: int| 0 <= j < g.slots.len() implies g.wired_slot(j, effects, 0) =~~= g.slots[j] by {
        assert(g.wiring_adds(Handle(j as usize), effects, 0) =~= Set::empty());
    }
    assert(g.wired_upto(effects, 0).slots =~~= g.slots);
}

/// Wires every node of the chosen sort that awaits it.
fn subscribe_subs<P: Fn(Vec<Reading>) -> Reading, E: Fn(Vec<Reading>, S) -> S, S>(
    graph: &mut SignalGraph<P, E, S>,
    effects: bool,
)
    requires
        old(graph).wf(),
    ensures
        final(graph).wf(),
        final(graph)@ == old(graph)@.wired(effects),
{
    let n = graph.capacity();
    let mut i: usize = 0;
    proof {
        lemma_wired_zero(graph@, effects);
    }
    while i < n
        invariant
            i <= n,
            n == old(graph)@.slots.len(),
            graph.wf(),
            graph@ == old(graph)@.wired_upto(effects, i as int),
        decreases n - i,
    {
        let h = Handle(i);
        match graph.pending_edges(h, effects) {
            Some(list) => {
                proof {
                    lemma_subscribed_none(graph@, h);
                }
                let mut k: usize = 0;
                while k < list.len()
                    invariant
                        k <= list.len(),
                        i < n,
                        n == old(graph)@.slots.len(),
                        h == Handle(i),
                        graph.wf(),
                        graph@ == old(graph)@.wired_upto(effects, i as int).subscribed(
                            h,
                            list@.take(k as int),
                        ),
                    decreases list.len() - k,
                {
                    proof {
                        lemma_subscribed_step(
                            old(graph)@.wired_upto(effects, i as int),
                            h,
                            list@,
                            k as int,
                        );
                    }
                    graph.subscribe(h, list[k]);
                    k += 1;
                }
                assert(list@.take(k as int) =~= list@);
                graph.mark_wired(h);
                proof {
                    lemma_wired_step(old(graph)@, effects, i as int);
                }
            },
            None => {
                proof {
                    lemma_wired_skip(old(graph)@, effects, i as int);
                }
            },
        }
        i += 1;
    }
}

/// Wires the effects that await it, with their sources and their triggers.
pub fn subscribe_effect_subs<P: Fn(Vec<Reading>) -> Reading, E: Fn(Vec<Reading>, S) -> S, S>(
    graph: &mut SignalGraph<P, E, S>,
)
    requires
        old(graph).wf(),
    ensures
        final(graph).wf(),
        final(graph)@ == old(graph)@.wired(true),
{
    subscribe_subs(graph, true)
}

/// Wires the computed nodes that await it, with their sources.
pub fn subscribe_propagator_subs<P: Fn(Vec<Reading>) -> Reading, E: Fn(Vec<Reading>, S) -> S, S>(
    graph: &mut SignalGraph<P, E, S>,
)
    requires
        old(graph).wf(),
    ensures
        final(graph).wf(),
        final(graph)@ == old(graph)@.wired(false),
{
    subscribe_subs(graph, false)
}

/// Finishes the wiring of the effects created since the last tick. An
/// effect is staged with each of its upstream cells, so none of them
/// notifies it before the staged subscribers are merged; an upstream handle
/// that names no cell never fires and is passed over.
pub fn init_effects<P: Fn(Vec<Reading>) -> Reading, E: Fn(Vec<Reading>, S) -> S, S>(
    graph: &mut SignalGraph<P, E, S>,
)
    requires
        old(graph).wf(),
    ensures
        final(graph).wf(),
        final(graph)@ == old(graph)@.wired(true),
{
    subscribe_effect_subs(graph)
}

/// Finishes the wiring of the computed nodes created since the last tick.
pub fn init_memos<P: Fn(Vec<Reading>) -> Reading, E: Fn(Vec<Reading>, S) -> S, S>(
    graph: &mut SignalGraph<P, E, S>,
)
    requires
        old(graph).wf(),
    ensures
        final(graph).wf(),
        final(graph)@ == old(graph)@.wired(false),
{
    subscribe_propagator_subs(graph)
}

} // verus!
