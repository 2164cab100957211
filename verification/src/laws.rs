//! What holds of every graph, proved from the contracts of the phases.

use vstd::prelude::*;
use crate::api::ticks;
use crate::systems::effects::ran;
use crate::framework::GraphModel;
use crate::lazy_immutable::StateModel;
use crate::systems::computed::earlier;
use crate::value::{reading_model, readings_model, Handle, Reading, ReadingModel, SignalError, ValueModel};

verus! {

/// A cell that is sent the value it holds reports no change at its commit;
/// a cell that is triggered reports one whatever it holds.
pub proof fn law_send_compares_trigger_forces(cell: StateModel, v: ValueModel)
    requires
        cell.current == Some(Ok::<ValueModel, SignalError>(v)),
    ensures
        !cell.merge_next(Some(Ok(v)), false).commit_changes(),
        cell.merge_next(Some(Ok(v)), false).commit().current == cell.current,
        cell.merge_next(Some(Ok(v)), true).commit_changes(),
{
}

/// A cell that is sent a value other than the one it holds, or an error,
/// reports a change and holds what was sent.
pub proof fn law_send_of_new_value_changes(cell: StateModel, sent: ReadingModel)
    requires
        sent is Some,
        sent != cell.current || sent->0 is Err,
    ensures
        cell.merge_next(sent, false).commit_changes(),
        cell.merge_next(sent, false).commit().current == sent,
{
}

/// Of two values staged before one commit, the later one wins.
pub proof fn law_last_write_wins(cell: StateModel, first: ReadingModel, second: ReadingModel, force: bool)
    ensures
        cell.merge_next(first, force).merge_next(second, force) == cell.merge_next(second, force),
{
}

/// Merging the staged subscribers twice is merging them once.
pub proof fn law_merge_is_idempotent(cell: StateModel)
    ensures
        cell.merge_subscribers().merge_subscribers() == cell.merge_subscribers(),
{
    assert(cell.merge_subscribers().merge_subscribers() =~~= cell.merge_subscribers());
}

/// A subscriber that registers is not visible until the next merge, and is
/// visible after it.
pub proof fn law_subscriber_waits_for_merge(cell: StateModel, h: Handle)
    ensures
        cell.register_subscriber(h).subscribers == cell.subscribers,
        cell.register_subscriber(h).merge_subscribers().subscribers.contains(h),
{
}

/// In a graph, sending a cell the value that it holds keeps it out of the
/// frontier of the next tick, and triggering it puts it there.
pub proof fn law_change_short_circuit<P, E>(g: GraphModel<P, E>, h: Handle, v: ValueModel)
    requires
        g.has_cell(h),
        g.cell(h).current == Some(Ok::<ValueModel, SignalError>(v)),
    ensures
        !g.stage(h, Some(Ok(v)), false).commit_reports(h),
        g.stage(h, Some(Ok(v)), true).commit_reports(h),
{
}

/// Where nothing is stale, a pass evaluates nothing and leaves the graph as
/// it was: an unchanged cell causes no evaluation downstream.
pub proof fn law_quiet_pass_is_idle<P: Fn(Vec<Reading>) -> Reading, E>(
    g: GraphModel<P, E>,
    frontier: Seq<Handle>,
    after: GraphModel<P, E>,
    evaluated: Seq<Handle>,
    changed: Seq<Handle>,
    refused: Seq<Handle>,
)
    requires
        g.wf(),
        g.propagates(frontier, after, evaluated, changed, refused),
        g.quiet(frontier),
    ensures
        evaluated.len() == 0,
        changed.len() == 0,
        after == g,
{
    if changed.len() > 0 {
        assert(changed.contains(changed[0]));
        assert(evaluated.contains(changed[0]));
    }
    assert forall|i: int| 0 <= i < g.slots.len() implies after.slots[i] == g.slots[i] by {
        let h = Handle(i as usize);
        assert(h.0 == i);
        assert(!evaluated.contains(h));
    }
    assert(after.slots =~= g.slots);
}

/// A changed cell wakes every effect that names it and is a visible
/// subscriber of it, whether as a source or as a trigger.
pub proof fn law_changed_cell_wakes_effect<P, E>(
    g: GraphModel<P, E>,
    frontier: Seq<Handle>,
    changed: Seq<Handle>,
    h: Handle,
    e: Handle,
)
    requires
        frontier.contains(h) || changed.contains(h),
        g.is_effect(e),
        g.edges(e).contains(h),
        g.subscribers(h).contains(e),
    ensures
        g.fires(frontier + changed, e),
{
    let all = frontier + changed;
    if frontier.contains(h) {
        let w = choose|w: int| 0 <= w < frontier.len() && frontier[w] == h;
        assert(all[w] == h);
    } else {
        let w = choose|w: int| 0 <= w < changed.len() && changed[w] == h;
        assert(all[frontier.len() + w] == h);
    }
    assert(g.wakes(all, h, e));
}

/// No node is evaluated twice in one pass: a handle stands at one position
/// of the evaluation order at most.
pub proof fn law_evaluated_once<P: Fn(Vec<Reading>) -> Reading, E>(
    g: GraphModel<P, E>,
    frontier: Seq<Handle>,
    after: GraphModel<P, E>,
    evaluated: Seq<Handle>,
    changed: Seq<Handle>,
    refused: Seq<Handle>,
    i: int,
    j: int,
)
    requires
        g.propagates(frontier, after, evaluated, changed, refused),
        0 <= i < evaluated.len(),
        0 <= j < evaluated.len(),
        evaluated[i] == evaluated[j],
    ensures
        i == j,
{
}

/// In a graph without cycles, a computed node is evaluated after every
/// computed node that it reads, and its function is handed the value that
/// the source holds when the pass ends: the value of this tick.
pub proof fn law_sources_first<P: Fn(Vec<Reading>) -> Reading, E>(
    g: GraphModel<P, E>,
    frontier: Seq<Handle>,
    after: GraphModel<P, E>,
    evaluated: Seq<Handle>,
    changed: Seq<Handle>,
    refused: Seq<Handle>,
    k: int,
    i: int,
)
    requires
        g.propagates(frontier, after, evaluated, changed, refused),
        g.acyclic(),
        0 <= k < evaluated.len(),
        0 <= i < g.node(evaluated[k]).sources().len(),
        g.is_computed(g.node(evaluated[k]).sources()[i]),
    ensures
        earlier(evaluated, k, g.node(evaluated[k]).sources()[i]),
        exists|args: Vec<Reading>, out: Reading|
            {
                &&& #[trigger] g.outcome_of(after, evaluated[k], changed.contains(evaluated[k]), args, out)
                &&& args@.len() == g.node(evaluated[k]).sources().len()
                &&& reading_model(args@[i]) == after.reading(g.node(evaluated[k]).sources()[i])
            },
{
    let a = evaluated[k];
    let s = g.node(a).sources()[i];
    assert(g.node(a).sources().contains(s));
    assert(g.depends(evaluated[k], s));
    if refused.contains(s) {
        let w = choose|w: int| 0 <= w < refused.len() && refused[w] == s;
    }
    assert(g.is_computed(evaluated[k]) && g.settled(after, evaluated[k], changed.contains(evaluated[k])));
    let (args, out) = choose|args: Vec<Reading>, out: Reading| #[trigger]
        g.outcome_of(after, a, changed.contains(a), args, out);
    assert(after.slots[a.0 as int] is Some);
    assert(after.node(a).kind == g.node(a).kind);
    assert(after.inputs(a).len() == g.node(a).sources().len());
    assert(readings_model(args@)[i] == after.inputs(a)[i]);
}

/// A subscriber is handed the error that its source holds: the tuple of a
/// node has, at the position of a source whose cell holds an error, that
/// error.
pub proof fn law_error_reaches_reader<P, E>(g: GraphModel<P, E>, h: Handle, i: int, e: SignalError)
    requires
        g.contains(h),
        0 <= i < g.node(h).sources().len(),
        g.has_cell(g.node(h).sources()[i]),
        g.cell(g.node(h).sources()[i]).current == Some(Err::<ValueModel, SignalError>(e)),
    ensures
        g.inputs(h).len() == g.node(h).sources().len(),
        g.inputs(h)[i] == Some(Err::<ValueModel, SignalError>(e)),
{
}

/// An error that a computation returns always counts as a change, so it
/// always travels on.
pub proof fn law_error_always_changes(cell: StateModel, e: SignalError)
    ensures
        cell.absorb_changes(Some(Err(e))),
        cell.absorb(Some(Err(e))).current == Some(Err::<ValueModel, SignalError>(e)),
{
}

/// The first phase of a tick shows no new subscriber: every cell has the
/// visible subscribers that it had.
pub proof fn law_wiring_is_invisible<P, E>(g: GraphModel<P, E>, s: Handle)
    ensures
        g.begun().subscribers(s) == g.subscribers(s),
{
    let a = g.wired(false);
    let b = a.wired(true);
    let c = b.committed();
    if s.0 < g.slots.len() {
        assert(a.slots[s.0 as int] == g.wired_slot(s.0 as int, false, g.slots.len() as int));
        assert(b.slots[s.0 as int] == a.wired_slot(s.0 as int, true, a.slots.len() as int));
    }
}

/// An effect that is wired in a tick, and that no cell had as a visible
/// subscriber, does not run in that tick, whatever changed.
pub proof fn law_new_effect_waits<S, P: Fn(Vec<Reading>) -> Reading, E: Fn(Vec<Reading>, S) -> S>(
    before: GraphModel<P, E>,
    after: GraphModel<P, E>,
    frontier: Seq<Handle>,
    evaluated: Seq<Handle>,
    changed: Seq<Handle>,
    refused: Seq<Handle>,
    fired: Seq<Handle>,
    state: S,
    end: S,
    e: Handle,
)
    requires
        ticks(before, after, frontier, evaluated, changed, refused, fired, state, end),
        forall|s: Handle| !before.subscribers(s).contains(e),
    ensures
        !fired.contains(e),
{
    let mid = choose|mid: GraphModel<P, E>|
        {
            &&& #[trigger] before.begun().propagates(frontier, mid, evaluated, changed, refused)
            &&& after == mid.merged()
            &&& forall|x: Handle| fired.contains(x) <==> mid.fires(frontier + changed, x)
            &&& ran(mid, fired, state, end)
        };
    if fired.contains(e) {
        let h = choose|h: Handle| #[trigger] mid.wakes(frontier + changed, h, e);
        law_wiring_is_invisible(before, h);
        assert(before.begun().slots[h.0 as int] is Some);
        assert(mid.subscribers(h) == before.begun().subscribers(h));
    }
}

/// A node that a cell did not have as a visible subscriber is not notified
/// by that cell after the first phase of a tick either, whether it was
/// wired in that phase or not: a change staged before the wiring does not
/// reach it in that tick.
pub proof fn law_new_subscriber_is_not_notified<P: Fn(Vec<Reading>) -> Reading, E>(
    before: GraphModel<P, E>,
    f: Handle,
    h: Handle,
)
    requires
        !before.subscribers(f).contains(h),
    ensures
        !before.begun().notifies(f, h),
{
    law_wiring_is_invisible(before, f);
}

/// A node that is wired in a tick is, after the tick, a visible subscriber
/// of every cell that it names.
pub proof fn law_wired_is_heard_next<S, P: Fn(Vec<Reading>) -> Reading, E: Fn(Vec<Reading>, S) -> S>(
    before: GraphModel<P, E>,
    after: GraphModel<P, E>,
    frontier: Seq<Handle>,
    evaluated: Seq<Handle>,
    changed: Seq<Handle>,
    refused: Seq<Handle>,
    fired: Seq<Handle>,
    state: S,
    end: S,
    n: Handle,
    s: Handle,
    effects: bool,
)
    requires
        before.wf(),
        ticks(before, after, frontier, evaluated, changed, refused, fired, state, end),
        before.awaits_wiring(n, effects),
        before.edges(n).contains(s),
        before.has_cell(s),
    ensures
        after.subscribers(s).contains(n),
{
    let mid = choose|mid: GraphModel<P, E>|
        {
            &&& #[trigger] before.begun().propagates(frontier, mid, evaluated, changed, refused)
            &&& after == mid.merged()
            &&& forall|x: Handle| fired.contains(x) <==> mid.fires(frontier + changed, x)
            &&& ran(mid, fired, state, end)
        };
    let a = before.wired(false);
    let b = a.wired(true);
    let c = before.begun();
    let j = s.0 as int;
    assert(a.slots[j] == before.wired_slot(j, false, before.slots.len() as int));
    assert(b.slots[j] == a.wired_slot(j, true, a.slots.len() as int));
    if effects {
        assert(a.slots[n.0 as int] == before.wired_slot(n.0 as int, false, before.slots.len() as int));
        assert(a.awaits_wiring(n, true));
        assert(a.edges(n) == before.edges(n));
        assert(a.wiring_adds(Handle(j as usize), true, a.slots.len() as int).contains(n));
    } else {
        assert(before.wiring_adds(Handle(j as usize), false, before.slots.len() as int).contains(n));
    }
    assert(b.has_cell(s) && b.cell(s).staged.contains(n));
    assert(c.has_cell(s) && c.cell(s).staged.contains(n));
    assert(mid.has_cell(s) && mid.cell(s).staged.contains(n)) by {
        if evaluated.contains(s) {
            let k = choose|k: int| 0 <= k < evaluated.len() && evaluated[k] == s;
            assert(c.is_computed(evaluated[k]) && c.settled(mid, evaluated[k], changed.contains(evaluated[k])));
            let (args, out) = choose|args: Vec<Reading>, out: Reading| #[trigger]
                c.outcome_of(mid, s, changed.contains(s), args, out);
        } else {
            assert(mid.slots[s.0 as int] == c.slots[s.0 as int]);
        }
    }
}

} // verus!
