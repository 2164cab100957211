//! The commit pass: every cell that a value was staged on takes it, and the
//! cells that changed form the frontier of the tick.

use vstd::prelude::*;
use crate::framework::{GraphModel, SignalGraph};
use crate::value::{Handle, Reading};

verus! {

impl<P, E> GraphModel<P, E> {
    /// The graph after the commit of every node below `upto`.
    pub open spec fn committed_upto(self, upto: int) -> Self {
        GraphModel {
            slots: Seq::new(
                self.slots.len(),
                |j: int|
                    if j < upto {
                        self.commit(Handle(j as usize)).slots[j]
                    } else {
                        self.slots[j]
                    },
            ),
        }
    }

    /// The graph after the commit of every node: each cell marked for a
    /// commit has taken what was staged on it, and no mark is left.
    pub open spec fn committed(self) -> Self {
        self.committed_upto(self.slots.len() as int)
    }
}

/// Commits every cell that is marked for it and returns the frontier: the
/// handles, in ascending order, of the cells whose commit reported a change.
pub fn send_signals<P: Fn(Vec<Reading>) -> Reading, E: Fn(Vec<Reading>, S) -> S, S>(
    graph: &mut SignalGraph<P, E, S>,
) -> (frontier: Vec<Handle>)
    requires
        old(graph).wf(),
    ensures
        final(graph).wf(),
        final(graph)@ == old(graph)@.committed(),
        forall|h: Handle| frontier@.contains(h) <==> old(graph)@.commit_reports(h),
        forall|a: int, b: int| 0 <= a < b < frontier@.len() ==> frontier@[a].0 < frontier@[b].0,
{
    let n = graph.capacity();
    let mut frontier: Vec<Handle> = Vec::new();
    let mut i: usize = 0;
    assert(graph@.slots =~= old(graph)@.committed_upto(0).slots);
    while i < n
        invariant
            i <= n,
            n == old(graph)@.slots.len(),
            graph.wf(),
            graph@ == old(graph)@.committed_upto(i as int),
            forall|h: Handle| frontier@.contains(h) <==> (h.0 < i && old(graph)@.commit_reports(h)),
            forall|a: int, b: int| 0 <= a < b < frontier@.len() ==> frontier@[a].0 < frontier@[b].0,
        decreases n - i,
    {
        let h = Handle(i);
        let ghost before = frontier@;
        let changed = graph.commit(h);
        assert(graph@.slots =~= old(graph)@.committed_upto(i + 1).slots);
        if changed {
            frontier.push(h);
            assert forall|x: Handle| frontier@.contains(x) <==> (x.0 < i + 1 && old(graph)@.commit_reports(
                x,
            )) by {
                if before.contains(x) {
                    let w = choose|w: int| 0 <= w < before.len() && before[w] == x;
                    assert(frontier@[w] == x);
                }
                if x == h {
                    assert(frontier@[before.len() as int] == x);
                }
            }
            assert forall|a: int, b: int| 0 <= a < b < frontier@.len() implies frontier@[a].0
                < frontier@[b].0 by {
                if b == before.len() {
                    assert(before.contains(before[a]));
                }
            }
        }
        i += 1;
    }
    frontier
}

} // verus!
