//! Dispatch: the effects that a changed cell wakes run once each, and the
//! subscribers staged during the tick become visible for the next one.

use vstd::prelude::*;
use crate::framework::{GraphModel, NodeModel, SignalGraph};
use crate::value::{holds_handle, Handle, Reading};

verus! {

impl<P, E> GraphModel<P, E> {
    /// Whether the change of `h` wakes `e`: `h` is among the cells listed in
    /// `changed`, `e` names it as a source or a trigger, and `e` is a
    /// visible subscriber of it.
    pub open spec fn wakes(self, changed: Seq<Handle>, h: Handle, e: Handle) -> bool {
        changed.contains(h) && self.edges(e).contains(h) && self.subscribers(h).contains(e)
    }

    /// Whether the effect `e` is due after the cells in `changed` changed.
    pub open spec fn fires(self, changed: Seq<Handle>, e: Handle) -> bool {
        self.is_effect(e) && exists|h: Handle| #[trigger] self.wakes(changed, h, e)
    }

    /// The graph after the staged subscribers of every cell below `upto`
    /// became visible.
    pub open spec fn merged_upto(self, upto: int) -> Self {
        GraphModel {
            slots: Seq::new(
                self.slots.len(),
                |j: int|
                    if j < upto {
                        self.merge_subscribers(Handle(j as usize)).slots[j]
                    } else {
                        self.slots[j]
                    },
            ),
        }
    }

    /// The graph after the staged subscribers of every cell became visible.
    pub open spec fn merged(self) -> Self {
        self.merged_upto(self.slots.len() as int)
    }
}

/// Whether running the effects in `fired`, in order, each once on the state
/// that the one before gave back, can lead from `start` to `end`.
pub open spec fn ran<S, P, E: Fn(Vec<Reading>, S) -> S>(
    g: GraphModel<P, E>,
    fired: Seq<Handle>,
    start: S,
    end: S,
) -> bool
    decreases fired.len(),
{
    if fired.len() == 0 {
        start == end
    } else {
        exists|mid: S, args: Vec<Reading>|
            ran(g, fired.drop_last(), start, mid) && #[trigger] g.effect_run(fired.last(), args, mid, end)
    }
}

proof fn lemma_contains_either(a: Seq<Handle>, b: Seq<Handle>, h: Handle)
    ensures
        (a + b).contains(h) <==> a.contains(h) || b.contains(h),
{
    if a.contains(h) {
        let w = choose|w: int| 0 <= w < a.len() && a[w] == h;
        assert((a + b)[w] == h);
    }
    if b.contains(h) {
        let w = choose|w: int| 0 <= w < b.len() && b[w] == h;
        assert((a + b)[a.len() + w] == h);
    }
    if (a + b).contains(h) {
        let w = choose|w: int| 0 <= w < (a + b).len() && (a + b)[w] == h;
        if w < a.len() {
            assert(a[w] == h);
        } else {
            assert(b[w - a.len()] == h);
        }
    }
}

/// Whether the effect `e` is due after the cells of the frontier and the
/// computed nodes in `changed` changed.
pub fn effect_due<P: Fn(Vec<Reading>) -> Reading, E: Fn(Vec<Reading>, S) -> S, S>(
    graph: &SignalGraph<P, E, S>,
    frontier: &Vec<Handle>,
    changed: &Vec<Handle>,
    e: Handle,
) -> (due: bool)
    ensures
        due == graph@.fires(frontier@ + changed@, e),
{
    if !graph.is_effect(e) {
        return false;
    }
    let ghost all = frontier@ + changed@;
    let mut edges = graph.sources(e);
    let mut triggers = graph.triggers(e);
    edges.append(&mut triggers);
    assert(edges@ =~= graph@.edges(e));
    let mut k: usize = 0;
    while k < edges.len()
        invariant
            k <= edges.len(),
            all == frontier@ + changed@,
            edges@ == graph@.edges(e),
            graph@.is_effect(e),
            forall|j: int| 0 <= j < k ==> !graph@.wakes(all, #[trigger] edges@[j], e),
        decreases edges.len() - k,
    {
        let h = edges[k];
        proof {
            lemma_contains_either(frontier@, changed@, h);
        }
        if holds_handle(frontier, h) || holds_handle(changed, h) {
            let subscribers = graph.subscribers(h);
            if holds_handle(&subscribers, e) {
                proof {
                    assert(subscribers@.to_set().contains(e));
                    assert(edges@.contains(h));
                    assert(graph@.wakes(all, h, e));
                }
                return true;
            }
            proof {
                assert(!subscribers@.to_set().contains(e));
            }
        }
        k += 1;
    }
    proof {
        assert forall|h: Handle| !graph@.wakes(all, h, e) by {
            if graph@.wakes(all, h, e) {
                let j = choose|j: int| 0 <= j < edges@.len() && edges@[j] == h;
                assert(!graph@.wakes(all, edges@[j], e));
            }
        }
    }
    false
}

/// Runs every effect that is due, once, in ascending order of handles, each
/// on the state that the one before gave back, with the committed values
/// of its sources as its tuple. The graph is only read.
pub fn run_effects<P: Fn(Vec<Reading>) -> Reading, E: Fn(Vec<Reading>, S) -> S, S>(
    graph: &SignalGraph<P, E, S>,
    frontier: &Vec<Handle>,
    changed: &Vec<Handle>,
    state: S,
) -> (r: (S, Vec<Handle>))
    requires
        graph.wf(),
    ensures
        forall|e: Handle| r.1@.contains(e) <==> graph@.fires(frontier@ + changed@, e),
        forall|a: int, b: int| 0 <= a < b < r.1@.len() ==> r.1@[a].0 < r.1@[b].0,
        ran(graph@, r.1@, state, r.0),
{
    let n = graph.capacity();
    let ghost all = frontier@ + changed@;
    let ghost start = state;
    let mut state = state;
    let mut fired: Vec<Handle> = Vec::new();
    let mut i: usize = 0;
    while i < n
        invariant
            i <= n,
            n == graph@.slots.len(),
            graph.wf(),
            all == frontier@ + changed@,
            forall|e: Handle| fired@.contains(e) <==> (e.0 < i && graph@.fires(all, e)),
            forall|a: int, b: int| 0 <= a < b < fired@.len() ==> fired@[a].0 < fired@[b].0,
            ran(graph@, fired@, start, state),
        decreases n - i,
    {
        let e = Handle(i);
        let ghost before = fired@;
        if effect_due(graph, frontier, changed, e) {
            let ghost mid = state;
            state = graph.run_effect(e, state);
            fired.push(e);
            proof {
                assert(fired@.drop_last() =~= before);
                assert(fired@.last() == e);
                let args = choose|args: Vec<Reading>| #[trigger] graph@.effect_run(e, args, mid, state);
                assert(ran(graph@, fired@.drop_last(), start, mid) && graph@.effect_run(
                    fired@.last(),
                    args,
                    mid,
                    state,
                ));
                assert forall|x: Handle| fired@.contains(x) <==> (x.0 < i + 1 && graph@.fires(all, x)) by {
                    if before.contains(x) {
                        let w = choose|w: int| 0 <= w < before.len() && before[w] == x;
                        assert(fired@[w] == x);
                    }
                    if x == e {
                        assert(fired@[before.len() as int] == x);
                    }
                    if fired@.contains(x) && x != e {
                        let w = choose|w: int| 0 <= w < fired@.len() && fired@[w] == x;
                        assert(before[w] == x);
                    }
                }
                assert forall|a: int, b: int| 0 <= a < b < fired@.len() implies fired@[a].0 < fired@[b].0 by {
                    if b == before.len() {
                        assert(before.contains(before[a]));
                    }
                }
            }
        }
        i += 1;
    }
    proof {
        assert forall|e: Handle| fired@.contains(e) <==> graph@.fires(all, e) by {}
    }
    (state, fired)
}

/// Makes the subscribers staged on every cell visible.
pub fn merge_subscribers<P: Fn(Vec<Reading>) -> Reading, E: Fn(Vec<Reading>, S) -> S, S>(
    graph: &mut SignalGraph<P, E, S>,
)
    requires
        old(graph).wf(),
    ensures
        final(graph).wf(),
        final(graph)@ == old(graph)@.merged(),
{
    let n = graph.capacity();
    let mut i: usize = 0;
    assert(graph@.slots =~= old(graph)@.merged_upto(0).slots);
    while i < n
        invariant
            i <= n,
            n == old(graph)@.slots.len(),
            graph.wf(),
            graph@ == old(graph)@.merged_upto(i as int),
        decreases n - i,
    {
        graph.merge_subscribers(Handle(i));
        assert(graph@.slots =~= old(graph)@.merged_upto(i + 1).slots);
        i += 1;
    }
}

/// Ends a tick: runs the effects that are due and then makes the
/// subscribers staged during the tick visible, so that a node wired in this
/// tick is notified from the next one on.
pub fn dispatch_effects<P: Fn(Vec<Reading>) -> Reading, E: Fn(Vec<Reading>, S) -> S, S>(
    graph: &mut SignalGraph<P, E, S>,
    frontier: &Vec<Handle>,
    changed: &Vec<Handle>,
    state: S,
) -> (r: (S, Vec<Handle>))
    requires
        old(graph).wf(),
    ensures
        final(graph).wf(),
        final(graph)@ == old(graph)@.merged(),
        forall|e: Handle| r.1@.contains(e) <==> old(graph)@.fires(frontier@ + changed@, e),
        forall|a: int, b: int| 0 <= a < b < r.1@.len() ==> r.1@[a].0 < r.1@[b].0,
        ran(old(graph)@, r.1@, state, r.0),
{
    let r = run_effects(graph, frontier, changed, state);
    merge_subscribers(graph);
    r
}

} // verus!
