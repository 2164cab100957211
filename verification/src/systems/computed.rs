//! Propagation: the computed nodes that a tick made stale are evaluated,
//! each once and each after the computed nodes that it reads.

use vstd::prelude::*;
use crate::framework::{GraphModel, SignalGraph};
use crate::value::{reading_model, readings_model, Handle, Reading, ReadingModel, SignalError};

verus! {

/// How far the pass has come with one node.
#[derive(Clone, Copy, Debug, PartialEq, Eq, Structural)]
pub enum Mark {
    /// Not met yet.
    Untouched,
    /// Met, and waiting on the dependency path for its sources.
    Visiting,
    /// Evaluated in this pass.
    Evaluated,
    /// Met again on the path while still waiting: not evaluated.
    Refused,
}

/// What one propagation pass did.
pub struct Propagation {
    /// The computed nodes that were evaluated, in the order of evaluation.
    pub evaluated: Vec<Handle>,
    /// Those among them whose cell reported a change.
    pub changed: Vec<Handle>,
    /// The computed nodes that were refused evaluation because they wait on
    /// themselves: each stands for the error `CycleDetected`.
    pub refused: Vec<Handle>,
}

impl Propagation {
    /// The errors of the pass: `CycleDetected` for each refused node, in the
    /// order in which they were refused.
    pub fn cycles(&self) -> (errors: Vec<SignalError>)
        ensures
            errors@.len() == self.refused@.len(),
            forall|k: int|
                0 <= k < errors@.len() ==> #[trigger] errors@[k] == SignalError::CycleDetected(self.refused@[k]),
    {
        let mut errors: Vec<SignalError> = Vec::new();
        let mut k: usize = 0;
        while k < self.refused.len()
            invariant
                k <= self.refused.len(),
                errors@.len() == k,
                forall|j: int|
                    0 <= j < k ==> #[trigger] errors@[j] == SignalError::CycleDetected(self.refused@[j]),
            decreases self.refused.len() - k,
        {
            errors.push(SignalError::CycleDetected(self.refused[k]));
            k += 1;
        }
        errors
    }
}

impl<P, E> GraphModel<P, E> {
    /// Whether the computed node `h` reads the computed node `s`.
    pub open spec fn depends(self, h: Handle, s: Handle) -> bool {
        self.is_computed(h) && self.is_computed(s) && self.node(h).sources().contains(s)
    }

    /// Whether a change of `f` notifies the computed node `h`: `h` is a
    /// visible subscriber of `f`.
    pub open spec fn notifies(self, f: Handle, h: Handle) -> bool {
        self.is_computed(h) && self.subscribers(f).contains(h)
    }

    /// Whether `rank` orders the computed nodes so that each stands above
    /// the computed nodes that it reads.
    pub open spec fn ranked(self, rank: spec_fn(Handle) -> nat) -> bool {
        forall|h: Handle, s: Handle| #[trigger] self.depends(h, s) ==> rank(s) < rank(h)
    }

    /// Whether no computed node reads itself, directly or through others.
    pub open spec fn acyclic(self) -> bool {
        exists|rank: spec_fn(Handle) -> nat| self.ranked(rank)
    }

    /// Whether the two graphs have the same nodes of the same kinds with the
    /// same edges: they differ at most in what cells hold and in marks.
    pub open spec fn same_shape(self, other: Self) -> bool {
        &&& self.slots.len() == other.slots.len()
        &&& forall|i: int|
            0 <= i < self.slots.len() ==> {
                let a = #[trigger] self.slots[i];
                let b = other.slots[i];
                &&& a is Some <==> b is Some
                &&& a is Some ==> {
                    &&& a->0.kind == b->0.kind
                    &&& a->0.cell is Some <==> b->0.cell is Some
                    &&& a->0.cell is Some ==> a->0.cell->0.subscribers == b->0.cell->0.subscribers
                }
            }
    }
}

impl<P: Fn(Vec<Reading>) -> Reading, E> GraphModel<P, E> {
    /// Whether `args` and `out` witness that the computed node `h` of this
    /// graph stands evaluated in `after`: its function, handed the values
    /// that its sources hold in `after`, returned `out`, and the cell of `h`
    /// in `after` is the cell of `h` here after absorbing `out`.
    pub open spec fn outcome_of(
        self,
        after: Self,
        h: Handle,
        changed: bool,
        args: Vec<Reading>,
        out: Reading,
    ) -> bool {
        &&& readings_model(args@) == after.inputs(h)
        &&& call_ensures(self.node(h).kind->Computed_function, (args,), out)
        &&& after.slots[h.0 as int] == self.evaluated(h, reading_model(out)).slots[h.0 as int]
        &&& changed == self.cell(h).absorb_changes(reading_model(out))
    }

    /// Whether the computed node `h` of this graph stands evaluated in
    /// `after`, with `changed` saying whether its cell reported a change.
    pub open spec fn settled(self, after: Self, h: Handle, changed: bool) -> bool {
        exists|args: Vec<Reading>, out: Reading| #[trigger] self.outcome_of(after, h, changed, args, out)
    }
}

impl<P: Fn(Vec<Reading>) -> Reading, E> GraphModel<P, E> {
    /// What a propagation pass does: it leads from this graph, after the
    /// cells in `frontier` changed, to `after`, evaluating the nodes in
    /// `evaluated` in that order, of which those in `changed` reported a
    /// change, and refusing those in `refused`.
    pub open spec fn propagates(
        self,
        frontier: Seq<Handle>,
        after: Self,
        evaluated: Seq<Handle>,
        changed: Seq<Handle>,
        refused: Seq<Handle>,
    ) -> bool {
        &&& self.same_shape(after)
        // only evaluated nodes change
        &&& forall|h: Handle|
            h.0 < self.slots.len() && !evaluated.contains(h) ==> after.slots[h.0 as int]
                == self.slots[h.0 as int]
        // each node is evaluated at most once
        &&& evaluated.no_duplicates()
        // an evaluated node holds what its function made of the values that
        // its sources hold at the end of the pass
        &&& forall|k: int|
            0 <= k < evaluated.len() ==> self.is_computed(#[trigger] evaluated[k]) && self.settled(
                after,
                evaluated[k],
                changed.contains(evaluated[k]),
            )
        // a node is evaluated after the computed nodes that it reads
        &&& forall|k: int, s: Handle|
            0 <= k < evaluated.len() && #[trigger] self.depends(evaluated[k], s) ==> earlier(evaluated, k, s)
                || refused.contains(s)
        &&& forall|h: Handle| #[trigger] changed.contains(h) ==> evaluated.contains(h)
        &&& forall|h: Handle| #[trigger]
            refused.contains(h) ==> self.is_computed(h) && !evaluated.contains(h)
        // the pass reaches every node that awaits evaluation and every node
        // that a changed cell notifies
        &&& forall|h: Handle| #[trigger]
            self.awaits_compute(h) ==> evaluated.contains(h) || refused.contains(h)
        &&& forall|f: Handle, h: Handle|
            (frontier.contains(f) || changed.contains(f)) && #[trigger] self.notifies(f, h)
                ==> evaluated.contains(h) || refused.contains(h)
        // the pass meets no node without a reason
        &&& forall|h: Handle|
            evaluated.contains(h) || refused.contains(h) ==> #[trigger] self.stale(
                frontier,
                evaluated,
                changed,
                refused,
                h,
            )
        // without a cycle nothing is refused
        &&& self.acyclic() ==> refused.len() == 0
        // without a stale node nothing is evaluated
        &&& self.quiet(frontier) ==> evaluated.len() == 0 && refused.len() == 0
    }

    /// Why a pass may meet the computed node `h`: it awaits evaluation, a
    /// cell that changed notifies it, or a node that the pass met reads it.
    pub open spec fn stale(
        self,
        frontier: Seq<Handle>,
        evaluated: Seq<Handle>,
        changed: Seq<Handle>,
        refused: Seq<Handle>,
        h: Handle,
    ) -> bool {
        ||| self.awaits_compute(h)
        ||| exists|f: Handle| (frontier.contains(f) || changed.contains(f)) && #[trigger] self.notifies(f, h)
        ||| exists|y: Handle| (evaluated.contains(y) || refused.contains(y)) && #[trigger] self.depends(y, h)
    }

    /// Whether nothing is stale: no computed node awaits evaluation and no
    /// cell of the frontier notifies one.
    pub open spec fn quiet(self, frontier: Seq<Handle>) -> bool {
        &&& forall|h: Handle| !self.awaits_compute(h)
        &&& forall|f: Handle, h: Handle| frontier.contains(f) ==> !#[trigger] self.notifies(f, h)
    }
}


/// Whether the pass is done with the node in slot `h`.
pub open spec fn resolved(marks: Seq<Mark>, h: Handle) -> bool {
    h.0 < marks.len() && (marks[h.0 as int] is Evaluated || marks[h.0 as int] is Refused)
}

/// The work that one mark stands for.
pub open spec fn mark_weight(m: Mark) -> nat {
    match m {
        Mark::Untouched => 2,
        Mark::Visiting => 1,
        _ => 0,
    }
}

/// The work that the marks stand for together.
pub open spec fn weight(marks: Seq<Mark>) -> nat
    decreases marks.len(),
{
    if marks.len() == 0 {
        0
    } else {
        weight(marks.drop_last()) + mark_weight(marks.last())
    }
}

proof fn lemma_weight_update(marks: Seq<Mark>, i: int, m: Mark)
    requires
        0 <= i < marks.len(),
    ensures
        weight(marks.update(i, m)) + mark_weight(marks[i]) == weight(marks) + mark_weight(m),
    decreases marks.len(),
{
    let updated = marks.update(i, m);
    if i == marks.len() - 1 {
        assert(updated.drop_last() =~= marks.drop_last());
    } else {
        assert(updated.drop_last() =~= marks.drop_last().update(i, m));
        lemma_weight_update(marks.drop_last(), i, m);
    }
}

/// The state of a pass at one moment, as the proof sees it.
ghost struct Pass<P, E> {
    pub before: GraphModel<P, E>,
    pub now: GraphModel<P, E>,
    pub frontier: Seq<Handle>,
    pub marks: Seq<Mark>,
    pub wave: Seq<Handle>,
    pub path: Seq<Handle>,
    pub evaluated: Seq<Handle>,
    pub changed: Seq<Handle>,
    pub refused: Seq<Handle>,
}

/// Whether `s` stands in `list` before position `k`.
pub open spec fn earlier(list: Seq<Handle>, k: int, s: Handle) -> bool {
    list.take(k).contains(s)
}

/// Whether position `i` of `path` holds the last occurrence of its node.
spec fn top(path: Seq<Handle>, i: int) -> bool {
    forall|r: int| i < r < path.len() ==> #[trigger] path[r] != path[i]
}

/// Whether position `q` of `path` holds `s` and lies above every occurrence
/// of `x`.
spec fn above(path: Seq<Handle>, x: Handle, s: Handle, q: int) -> bool {
    &&& 0 <= q < path.len()
    &&& path[q] == s
    &&& forall|r: int| 0 <= r < path.len() && #[trigger] path[r] == x ==> r < q
}

spec fn inv_frame<P, E>(p: Pass<P, E>) -> bool {
    &&& p.before.wf()
    &&& p.marks.len() == p.before.slots.len()
    &&& p.before.same_shape(p.now)
    &&& forall|h: Handle|
        h.0 < p.marks.len() && !(#[trigger] p.marks[h.0 as int] is Evaluated) ==> p.now.slots[h.0 as int]
            == p.before.slots[h.0 as int]
    &&& forall|h: Handle|
        h.0 < p.marks.len() && !(#[trigger] p.marks[h.0 as int] is Untouched) ==> p.before.is_computed(h)
}

spec fn inv_lists<P, E>(p: Pass<P, E>) -> bool {
    &&& forall|h: Handle| #[trigger]
        p.evaluated.contains(h) ==> h.0 < p.marks.len() && p.marks[h.0 as int] is Evaluated
    &&& forall|h: Handle|
        h.0 < p.marks.len() && #[trigger] p.marks[h.0 as int] is Evaluated ==> p.evaluated.contains(h)
    &&& forall|h: Handle| #[trigger]
        p.refused.contains(h) ==> h.0 < p.marks.len() && p.marks[h.0 as int] is Refused
    &&& forall|h: Handle|
        h.0 < p.marks.len() && #[trigger] p.marks[h.0 as int] is Refused ==> p.refused.contains(h)
    &&& p.evaluated.no_duplicates()
    &&& forall|h: Handle| #[trigger] p.changed.contains(h) ==> p.evaluated.contains(h)
    &&& forall|k: int| 0 <= k < p.wave.len() ==> p.before.is_computed(#[trigger] p.wave[k])
    &&& forall|k: int| 0 <= k < p.path.len() ==> p.before.is_computed(#[trigger] p.path[k])
}

spec fn inv_settled<P: Fn(Vec<Reading>) -> Reading, E>(p: Pass<P, E>) -> bool {
    forall|k: int|
        0 <= k < p.evaluated.len() ==> p.before.settled(
            p.now,
            #[trigger] p.evaluated[k],
            p.changed.contains(p.evaluated[k]),
        )
}

spec fn inv_order<P, E>(p: Pass<P, E>) -> bool {
    forall|k: int, s: Handle|
        0 <= k < p.evaluated.len() && #[trigger] p.before.depends(p.evaluated[k], s) ==> earlier(
            p.evaluated,
            k,
            s,
        ) || p.refused.contains(s)
}

spec fn waiting<P, E>(p: Pass<P, E>, h: Handle) -> bool {
    h.0 < p.marks.len() && (!(p.marks[h.0 as int] is Untouched) || p.wave.contains(h) || p.path.contains(
        h,
    ))
}

spec fn inv_wave<P, E>(p: Pass<P, E>) -> bool {
    &&& forall|h: Handle| #[trigger] p.before.awaits_compute(h) ==> waiting(p, h)
    &&& forall|f: Handle, h: Handle|
        (p.frontier.contains(f) || p.changed.contains(f)) && #[trigger] p.before.notifies(f, h)
            ==> waiting(p, h)
    &&& forall|h: Handle|
        h.0 < p.marks.len() && #[trigger] p.marks[h.0 as int] is Visiting ==> p.path.contains(h)
}

spec fn inv_rank<P, E>(p: Pass<P, E>, rank: spec_fn(Handle) -> nat) -> bool {
    p.before.ranked(rank) ==> {
        &&& p.refused.len() == 0
        &&& forall|i: int, j: int|
            0 <= i < j < p.path.len() && p.marks[(#[trigger] p.path[i]).0 as int] is Visiting && top(
                p.path,
                i,
            ) ==> rank(#[trigger] p.path[j]) < rank(p.path[i])
        &&& forall|x: Handle, s: Handle|
            x.0 < p.marks.len() && p.marks[x.0 as int] is Visiting && #[trigger] p.before.depends(x, s)
                && !resolved(p.marks, s) ==> exists|q: int| #[trigger] above(p.path, x, s, q)
    }
}

/// Whether the pass has met `h` or is about to.
spec fn touched<P, E>(p: Pass<P, E>, h: Handle) -> bool {
    (h.0 < p.marks.len() && !(p.marks[h.0 as int] is Untouched)) || p.wave.contains(h) || p.path.contains(h)
}

/// Why the pass may meet `h`.
spec fn reason<P, E>(p: Pass<P, E>, h: Handle) -> bool {
    ||| p.before.awaits_compute(h)
    ||| exists|f: Handle| (p.frontier.contains(f) || p.changed.contains(f)) && #[trigger] p.before.notifies(f, h)
    ||| exists|y: Handle|
        y.0 < p.marks.len() && !(p.marks[y.0 as int] is Untouched) && #[trigger] p.before.depends(y, h)
}

spec fn inv_reason<P, E>(p: Pass<P, E>) -> bool {
    forall|h: Handle| #[trigger] touched(p, h) ==> reason(p, h)
}

/// A reason stays one when marks only leave `Untouched` and the list of
/// changed nodes only grows.
proof fn lemma_reason_kept<P, E>(p: Pass<P, E>, reached: Pass<P, E>, h: Handle)
    requires
        reason(p, h),
        reached.before == p.before,
        reached.frontier == p.frontier,
        reached.marks.len() == p.marks.len(),
        forall|y: Handle|
            y.0 < p.marks.len() && !(p.marks[y.0 as int] is Untouched) ==> !(reached.marks[y.0 as int] is Untouched),
        forall|f: Handle| p.changed.contains(f) ==> reached.changed.contains(f),
    ensures
        reason(reached, h),
{
    if p.before.awaits_compute(h) {
    } else if exists|f: Handle|
        (p.frontier.contains(f) || p.changed.contains(f)) && #[trigger] p.before.notifies(f, h) {
        let f = choose|f: Handle|
            (p.frontier.contains(f) || p.changed.contains(f)) && #[trigger] p.before.notifies(f, h);
        assert((reached.frontier.contains(f) || reached.changed.contains(f)) && reached.before.notifies(f, h));
    } else {
        let y = choose|y: Handle|
            y.0 < p.marks.len() && !(p.marks[y.0 as int] is Untouched) && #[trigger] p.before.depends(y, h);
        assert(y.0 < reached.marks.len() && !(reached.marks[y.0 as int] is Untouched) && reached.before.depends(y, h));
    }
}

spec fn inv<P: Fn(Vec<Reading>) -> Reading, E>(p: Pass<P, E>, rank: spec_fn(Handle) -> nat) -> bool {
    &&& inv_reason(p)
    &&& inv_frame(p)
    &&& inv_lists(p)
    &&& inv_settled(p)
    &&& inv_order(p)
    &&& inv_wave(p)
    &&& inv_rank(p, rank)
}

proof fn lemma_contains_drop_last(list: Seq<Handle>, x: Handle)
    requires
        list.len() > 0,
        list.contains(x),
        x != list.last(),
    ensures
        list.drop_last().contains(x),
{
    let w = choose|w: int| 0 <= w < list.len() && list[w] == x;
    assert(list.drop_last()[w] == x);
}

proof fn lemma_contains_of_drop_last(list: Seq<Handle>, x: Handle)
    requires
        list.len() > 0,
        list.drop_last().contains(x),
    ensures
        list.contains(x),
{
    let w = choose|w: int| 0 <= w < list.drop_last().len() && list.drop_last()[w] == x;
    assert(list[w] == x);
}

/// The resolved node on top of the path is dropped.
proof fn lemma_step_drop<P: Fn(Vec<Reading>) -> Reading, E>(
    p: Pass<P, E>,
    reached: Pass<P, E>,
    rank: spec_fn(Handle) -> nat,
)
    requires
        inv(p, rank),
        p.path.len() > 0,
        resolved(p.marks, p.path.last()),
        reached == (Pass { path: p.path.drop_last(), ..p }),
    ensures
        inv(reached, rank),
{
    let h = p.path.last();
    assert(inv_reason(reached)) by {
        assert forall|x: Handle| #[trigger] touched(reached, x) implies reason(reached, x) by {
            if reached.path.contains(x) {
                lemma_contains_of_drop_last(p.path, x);
            }
            assert(touched(p, x));
            lemma_reason_kept(p, reached, x);
        }
    }
    assert(inv_frame(reached));
    assert(inv_lists(reached)) by {
        assert forall|k: int| 0 <= k < reached.path.len() implies reached.before.is_computed(#[trigger] reached.path[k]) by {
            assert(reached.path[k] == p.path[k]);
        }
    }
    assert(inv_settled(reached));
    assert(inv_order(reached));
    assert(inv_wave(reached)) by {
        assert forall|x: Handle| waiting(p, x) implies waiting(reached, x) by {
            if p.marks[x.0 as int] is Untouched && !p.wave.contains(x) {
                lemma_contains_drop_last(p.path, x);
            }
        }
        assert forall|x: Handle|
            x.0 < reached.marks.len() && #[trigger] reached.marks[x.0 as int] is Visiting implies reached.path.contains(
            x,
        ) by {
            lemma_contains_drop_last(p.path, x);
        }
    }
    assert(inv_rank(reached, rank)) by {
        if p.before.ranked(rank) {
            assert forall|k: int| 0 <= k < p.path.len() implies (#[trigger] p.path[k]).0 < p.marks.len() by {
                assert(p.before.is_computed(p.path[k]));
            }
            lemma_rank_after_pop(p, reached, rank);
        }
    }
}

/// With the path's top node resolved in `reached` and nothing else different but the
/// shorter path, the order facts carry over.
proof fn lemma_rank_after_pop<P, E>(p: Pass<P, E>, reached: Pass<P, E>, rank: spec_fn(Handle) -> nat)
    requires
        inv_rank(p, rank),
        p.before.ranked(rank),
        p.path.len() > 0,
        forall|k: int| 0 <= k < p.path.len() ==> (#[trigger] p.path[k]).0 < p.marks.len(),
        reached.before == p.before,
        reached.path == p.path.drop_last(),
        reached.refused == p.refused,
        reached.marks.len() == p.marks.len(),
        resolved(reached.marks, p.path.last()),
        forall|x: Handle| x.0 < p.marks.len() && x != p.path.last() ==> reached.marks[x.0 as int] == p.marks[x.0 as int],
    ensures
        inv_rank(reached, rank),
{
    let h = p.path.last();
    let m = p.path.len() - 1;
    assert forall|i: int, j: int|
        0 <= i < j < reached.path.len() && reached.marks[(#[trigger] reached.path[i]).0 as int] is Visiting && top(
            reached.path,
            i,
        ) implies rank(#[trigger] reached.path[j]) < rank(reached.path[i]) by {
        assert(reached.path[i] == p.path[i]);
        assert(reached.path[j] == p.path[j]);
        assert(p.path[i].0 < p.marks.len());
        assert(p.path[i] != h);
        assert(p.marks[p.path[i].0 as int] is Visiting);
        assert(top(p.path, i)) by {
            assert forall|r: int| i < r < p.path.len() implies #[trigger] p.path[r] != p.path[i] by {
                if r < m {
                    assert(reached.path[r] == p.path[r]);
                }
            }
        }
    }
    assert forall|x: Handle, s: Handle|
        x.0 < reached.marks.len() && reached.marks[x.0 as int] is Visiting && #[trigger] reached.before.depends(x, s)
            && !resolved(reached.marks, s) implies exists|q: int| #[trigger] above(reached.path, x, s, q) by {
        assert(x != h);
        assert(s != h);
        assert(!resolved(p.marks, s));
        let q = choose|q: int| #[trigger] above(p.path, x, s, q);
        assert(q != m);
        assert(reached.path[q] == s);
        assert forall|r: int| 0 <= r < reached.path.len() && #[trigger] reached.path[r] == x implies r < q by {
            assert(p.path[r] == x);
        }
        assert(above(reached.path, x, s, q));
    }
}

/// With the path empty, the next node of the wave is taken up.
proof fn lemma_step_take<P: Fn(Vec<Reading>) -> Reading, E>(
    p: Pass<P, E>,
    reached: Pass<P, E>,
    rank: spec_fn(Handle) -> nat,
)
    requires
        inv(p, rank),
        p.path.len() == 0,
        p.wave.len() > 0,
        reached == (Pass {
            wave: p.wave.drop_last(),
            path: if p.marks[p.wave.last().0 as int] is Untouched {
                seq![p.wave.last()]
            } else {
                Seq::<Handle>::empty()
            },
            ..p
        }),
    ensures
        inv(reached, rank),
{
    let d = p.wave.last();
    assert(p.before.is_computed(p.wave[p.wave.len() - 1]));
    assert(inv_reason(reached)) by {
        assert forall|x: Handle| #[trigger] touched(reached, x) implies reason(reached, x) by {
            if reached.wave.contains(x) {
                lemma_contains_of_drop_last(p.wave, x);
            }
            if reached.path.contains(x) {
                assert(x == d);
                assert(p.wave[p.wave.len() - 1] == d);
            }
            assert(touched(p, x));
            lemma_reason_kept(p, reached, x);
        }
    }
    assert(inv_frame(reached));
    assert(inv_lists(reached)) by {
        assert forall|k: int| 0 <= k < reached.wave.len() implies reached.before.is_computed(#[trigger] reached.wave[k]) by {
            assert(reached.wave[k] == p.wave[k]);
        }
    }
    assert(inv_settled(reached));
    assert(inv_order(reached));
    assert(inv_wave(reached)) by {
        assert forall|x: Handle| waiting(p, x) implies waiting(reached, x) by {
            if p.marks[x.0 as int] is Untouched {
                assert(p.wave.contains(x));
                if x == d {
                    assert(reached.path[0] == x);
                } else {
                    lemma_contains_drop_last(p.wave, x);
                }
            }
        }
    }
    assert(inv_rank(reached, rank)) by {
        if p.before.ranked(rank) {
            assert forall|x: Handle| x.0 < p.marks.len() implies !(#[trigger] p.marks[x.0 as int] is Visiting) by {
                if p.marks[x.0 as int] is Visiting {
                    assert(p.path.contains(x));
                }
            }
        }
    }
}


/// The last occurrence of a node that stands on the path.
proof fn lemma_top_exists(path: Seq<Handle>, x: Handle) -> (i: int)
    requires
        path.contains(x),
    ensures
        0 <= i < path.len(),
        path[i] == x,
        top(path, i),
    decreases path.len(),
{
    if path.last() == x {
        path.len() - 1
    } else {
        lemma_contains_drop_last(path, x);
        let i = lemma_top_exists(path.drop_last(), x);
        assert(path.drop_last()[i] == path[i]);
        assert forall|r: int| i < r < path.len() implies #[trigger] path[r] != path[i] by {
            if r < path.len() - 1 {
                assert(path.drop_last()[r] == path[r]);
            }
        }
        i
    }
}

/// The node on top of the path is met again while it still waits: it is
/// refused. Where the graph is ranked this cannot happen.
proof fn lemma_step_refuse<P: Fn(Vec<Reading>) -> Reading, E>(
    p: Pass<P, E>,
    reached: Pass<P, E>,
    rank: spec_fn(Handle) -> nat,
    s: Handle,
)
    requires
        inv(p, rank),
        p.path.len() > 0,
        p.marks[p.path.last().0 as int] is Visiting,
        p.before.depends(p.path.last(), s),
        !resolved(p.marks, s),
        reached == (Pass {
            marks: p.marks.update(p.path.last().0 as int, Mark::Refused),
            refused: p.refused.push(p.path.last()),
            path: p.path.drop_last(),
            ..p
        }),
    ensures
        inv(reached, rank),
{
    let h = p.path.last();
    let m = p.path.len() - 1;
    assert(p.before.is_computed(p.path[m]));
    assert(inv_reason(reached)) by {
        assert forall|x: Handle| #[trigger] touched(reached, x) implies reason(reached, x) by {
            if reached.path.contains(x) {
                lemma_contains_of_drop_last(p.path, x);
            }
            assert(touched(p, x));
            lemma_reason_kept(p, reached, x);
        }
    }
    assert(inv_frame(reached));
    assert(inv_lists(reached)) by {
        assert forall|x: Handle| #[trigger] reached.refused.contains(x) implies x.0 < reached.marks.len()
            && reached.marks[x.0 as int] is Refused by {
            let w = choose|w: int| 0 <= w < reached.refused.len() && reached.refused[w] == x;
            if w < p.refused.len() {
                assert(p.refused[w] == x);
                assert(p.refused.contains(x));
            }
        }
        assert forall|x: Handle|
            x.0 < reached.marks.len() && #[trigger] reached.marks[x.0 as int] is Refused implies reached.refused.contains(
            x,
        ) by {
            if x == h {
                assert(reached.refused[p.refused.len() as int] == x);
            } else {
                assert(p.marks[x.0 as int] is Refused);
                let w = choose|w: int| 0 <= w < p.refused.len() && p.refused[w] == x;
                assert(reached.refused[w] == x);
            }
        }
        assert forall|x: Handle| #[trigger] reached.evaluated.contains(x) implies x.0 < reached.marks.len()
            && reached.marks[x.0 as int] is Evaluated by {
            assert(p.evaluated.contains(x));
        }
        assert forall|x: Handle|
            x.0 < reached.marks.len() && #[trigger] reached.marks[x.0 as int] is Evaluated implies reached.evaluated.contains(
            x,
        ) by {
            assert(p.marks[x.0 as int] is Evaluated);
        }
        assert forall|k: int| 0 <= k < reached.path.len() implies reached.before.is_computed(#[trigger] reached.path[k]) by {
            assert(reached.path[k] == p.path[k]);
        }
    }
    assert(inv_settled(reached));
    assert(inv_order(reached)) by {
        assert forall|k: int, t: Handle|
            0 <= k < reached.evaluated.len() && #[trigger] reached.before.depends(reached.evaluated[k], t) implies earlier(
            reached.evaluated,
            k,
            t,
        ) || reached.refused.contains(t) by {
            if p.refused.contains(t) {
                let w = choose|w: int| 0 <= w < p.refused.len() && p.refused[w] == t;
                assert(reached.refused[w] == t);
            }
        }
    }
    assert(inv_wave(reached)) by {
        assert forall|x: Handle| waiting(p, x) implies waiting(reached, x) by {
            if reached.marks[x.0 as int] is Untouched && !p.wave.contains(x) {
                assert(x != h);
                lemma_contains_drop_last(p.path, x);
            }
        }
        assert forall|x: Handle|
            x.0 < reached.marks.len() && #[trigger] reached.marks[x.0 as int] is Visiting implies reached.path.contains(
            x,
        ) by {
            assert(x != h);
            assert(p.marks[x.0 as int] is Visiting);
            lemma_contains_drop_last(p.path, x);
        }
    }
    assert(inv_rank(reached, rank)) by {
        if p.before.ranked(rank) {
            let q = choose|q: int| #[trigger] above(p.path, h, s, q);
            assert(p.path[m] == h);
            assert(false);
        }
    }
}

/// The untouched node on top of the path has sources to wait for: it stays
/// on the path and they are put above it.
proof fn lemma_step_visit<P: Fn(Vec<Reading>) -> Reading, E>(
    p: Pass<P, E>,
    reached: Pass<P, E>,
    rank: spec_fn(Handle) -> nat,
    pend: Seq<Handle>,
)
    requires
        inv(p, rank),
        p.path.len() > 0,
        p.marks[p.path.last().0 as int] is Untouched,
        forall|s: Handle| pend.contains(s) <==> (p.before.depends(p.path.last(), s) && !resolved(p.marks, s)),
        reached == (Pass {
            marks: p.marks.update(p.path.last().0 as int, Mark::Visiting),
            path: p.path + pend,
            ..p
        }),
    ensures
        inv(reached, rank),
{
    let h = p.path.last();
    let m = p.path.len() - 1;
    assert(p.before.is_computed(p.path[m]));
    assert forall|k: int| 0 <= k < pend.len() implies p.before.depends(h, #[trigger] pend[k]) && !resolved(
        p.marks,
        pend[k],
    ) by {
        assert(pend.contains(pend[k]));
    }
    assert forall|x: Handle| p.path.contains(x) implies reached.path.contains(x) by {
        let w = choose|w: int| 0 <= w < p.path.len() && p.path[w] == x;
        assert(reached.path[w] == x);
    }
    assert(inv_reason(reached)) by {
        assert forall|x: Handle| #[trigger] touched(reached, x) implies reason(reached, x) by {
            if touched(p, x) {
                lemma_reason_kept(p, reached, x);
            } else if x == h {
                assert(p.path[m] == h);
                assert(p.path.contains(h));
            } else {
                let w = choose|w: int| 0 <= w < reached.path.len() && reached.path[w] == x;
                if w < p.path.len() {
                    assert(p.path[w] == x);
                    assert(p.path.contains(x));
                } else {
                    assert(pend[w - p.path.len()] == x);
                    assert(h.0 < reached.marks.len() && !(reached.marks[h.0 as int] is Untouched) && reached.before.depends(h, x));
                }
            }
        }
    }
    assert(inv_frame(reached));
    assert(inv_lists(reached)) by {
        assert forall|x: Handle| #[trigger] reached.evaluated.contains(x) implies x.0 < reached.marks.len()
            && reached.marks[x.0 as int] is Evaluated by {
            assert(p.evaluated.contains(x));
        }
        assert forall|x: Handle|
            x.0 < reached.marks.len() && #[trigger] reached.marks[x.0 as int] is Evaluated implies reached.evaluated.contains(
            x,
        ) by {
            assert(p.marks[x.0 as int] is Evaluated);
        }
        assert forall|x: Handle| #[trigger] reached.refused.contains(x) implies x.0 < reached.marks.len()
            && reached.marks[x.0 as int] is Refused by {
            assert(p.refused.contains(x));
        }
        assert forall|x: Handle|
            x.0 < reached.marks.len() && #[trigger] reached.marks[x.0 as int] is Refused implies reached.refused.contains(
            x,
        ) by {
            assert(p.marks[x.0 as int] is Refused);
        }
        assert forall|k: int| 0 <= k < reached.path.len() implies reached.before.is_computed(#[trigger] reached.path[k]) by {
            if k < p.path.len() {
                assert(reached.path[k] == p.path[k]);
            } else {
                assert(reached.path[k] == pend[k - p.path.len()]);
            }
        }
    }
    assert(inv_settled(reached));
    assert(inv_order(reached));
    assert(inv_wave(reached)) by {
        assert forall|x: Handle| waiting(p, x) implies waiting(reached, x) by {}
        assert forall|x: Handle|
            x.0 < reached.marks.len() && #[trigger] reached.marks[x.0 as int] is Visiting implies reached.path.contains(
            x,
        ) by {
            if x == h {
                assert(reached.path[m] == h);
            } else {
                assert(p.marks[x.0 as int] is Visiting);
            }
        }
    }
    assert(inv_rank(reached, rank)) by {
        if p.before.ranked(rank) {
            assert forall|x: Handle| resolved(reached.marks, x) <==> resolved(p.marks, x) by {}
            // what is put on the path stands below its reader and is not itself waiting
            assert forall|k: int| 0 <= k < pend.len() implies rank(#[trigger] pend[k]) < rank(h) && !(p.marks[pend[k].0 as int] is Visiting)
                && pend[k] != h by {
                let s = pend[k];
                assert(p.before.depends(h, s));
                if p.marks[s.0 as int] is Visiting {
                    assert(p.path.contains(s));
                    let i0 = lemma_top_exists(p.path, s);
                    assert(i0 < m);
                    assert(rank(p.path[m]) < rank(p.path[i0]));
                }
            }
            assert forall|i: int, j: int|
                0 <= i < j < reached.path.len() && reached.marks[(#[trigger] reached.path[i]).0 as int] is Visiting && top(
                    reached.path,
                    i,
                ) implies rank(#[trigger] reached.path[j]) < rank(reached.path[i]) by {
                if i > m {
                    assert(reached.path[i] == pend[i - p.path.len()]);
                    assert(false);
                } else if i == m {
                    assert(reached.path[i] == h);
                    assert(reached.path[j] == pend[j - p.path.len()]);
                } else {
                    let x = p.path[i];
                    assert(reached.path[i] == x);
                    assert(p.before.is_computed(p.path[i]));
                    if x == h {
                        assert(reached.path[m] == h);
                        assert(false);
                    }
                    assert(p.marks[x.0 as int] is Visiting);
                    assert(top(p.path, i)) by {
                        assert forall|r: int| i < r < p.path.len() implies #[trigger] p.path[r] != p.path[i] by {
                            assert(reached.path[r] == p.path[r]);
                        }
                    }
                    assert(rank(p.path[m]) < rank(p.path[i]));
                    if j <= m {
                        assert(reached.path[j] == p.path[j]);
                    } else {
                        assert(reached.path[j] == pend[j - p.path.len()]);
                    }
                }
            }
            assert forall|x: Handle, s: Handle|
                x.0 < reached.marks.len() && reached.marks[x.0 as int] is Visiting && #[trigger] reached.before.depends(x, s)
                    && !resolved(reached.marks, s) implies exists|q: int| #[trigger] above(reached.path, x, s, q) by {
                assert(!resolved(p.marks, s));
                if x == h {
                    assert(pend.contains(s));
                    let k = choose|k: int| 0 <= k < pend.len() && pend[k] == s;
                    let q = p.path.len() + k;
                    assert(reached.path[q] == s);
                    assert forall|r: int| 0 <= r < reached.path.len() && #[trigger] reached.path[r] == x implies r < q by {
                        if r >= p.path.len() {
                            assert(reached.path[r] == pend[r - p.path.len()]);
                        }
                    }
                    assert(above(reached.path, x, s, q));
                } else {
                    assert(p.marks[x.0 as int] is Visiting);
                    let q = choose|q: int| #[trigger] above(p.path, x, s, q);
                    assert(reached.path[q] == s);
                    assert forall|r: int| 0 <= r < reached.path.len() && #[trigger] reached.path[r] == x implies r < q by {
                        if r >= p.path.len() {
                            assert(reached.path[r] == pend[r - p.path.len()]);
                            assert(false);
                        } else {
                            assert(p.path[r] == x);
                        }
                    }
                    assert(above(reached.path, x, s, q));
                }
            }
        }
    }
}


/// A node that does not read `h` is handed the same tuple after `h` was
/// evaluated as before.
proof fn lemma_inputs_kept<P, E>(g: GraphModel<P, E>, h: Handle, outcome: ReadingModel, e: Handle)
    requires
        g.is_computed(h),
        g.contains(e),
        !g.node(e).sources().contains(h),
    ensures
        g.evaluated(h, outcome).inputs(e) == g.inputs(e),
{
    let g2 = g.evaluated(h, outcome);
    let sources = g.node(e).sources();
    assert(g2.node(e).sources() == sources);
    assert forall|t: int| 0 <= t < sources.len() implies g2.reading(#[trigger] sources[t]) == g.reading(
        sources[t],
    ) by {
        assert(sources.contains(sources[t]));
        assert(sources[t] != h);
    }
    assert(g2.inputs(e) =~= g.inputs(e));
}

/// The node on top of the path has no source left to wait for: it is
/// evaluated, and where its cell changed, the nodes that it notifies join the
/// wave.
proof fn lemma_step_eval<P: Fn(Vec<Reading>) -> Reading, E>(
    p: Pass<P, E>,
    reached: Pass<P, E>,
    rank: spec_fn(Handle) -> nat,
    flag: bool,
)
    requires
        inv(p, rank),
        p.path.len() > 0,
        !resolved(p.marks, p.path.last()),
        forall|s: Handle| #[trigger] p.before.depends(p.path.last(), s) ==> resolved(p.marks, s),
        exists|args: Vec<Reading>, out: Reading| #[trigger]
            p.now.evaluation(p.path.last(), args, out, reached.now, flag),
        reached.before == p.before,
        reached.frontier == p.frontier,
        reached.refused == p.refused,
        reached.marks == p.marks.update(p.path.last().0 as int, Mark::Evaluated),
        reached.evaluated == p.evaluated.push(p.path.last()),
        reached.changed == if flag {
            p.changed.push(p.path.last())
        } else {
            p.changed
        },
        reached.path == p.path.drop_last(),
        forall|x: Handle| p.wave.contains(x) ==> reached.wave.contains(x),
        flag ==> forall|x: Handle| #[trigger]
            p.before.notifies(p.path.last(), x) && reached.marks[x.0 as int] is Untouched ==> reached.wave.contains(x),
        forall|x: Handle| #[trigger]
            reached.wave.contains(x) ==> p.wave.contains(x) || (flag && p.before.notifies(p.path.last(), x)),
    ensures
        inv(reached, rank),
{
    let h = p.path.last();
    let m = p.path.len() - 1;
    let n = p.evaluated.len() as int;
    assert(p.before.is_computed(p.path[m]));
    let (args, out) = choose|args: Vec<Reading>, out: Reading| #[trigger]
        p.now.evaluation(h, args, out, reached.now, flag);
    let outcome = reading_model(out);
    assert(p.now.slots[h.0 as int] == p.before.slots[h.0 as int]);
    assert(reached.now == p.now.evaluated(h, outcome));
    assert(!p.evaluated.contains(h));
    assert(!p.before.node(h).sources().contains(h)) by {
        if p.before.node(h).sources().contains(h) {
            assert(p.before.depends(h, h));
        }
    }
    assert forall|x: Handle| p.evaluated.contains(x) implies reached.evaluated.contains(x) by {
        let w = choose|w: int| 0 <= w < p.evaluated.len() && p.evaluated[w] == x;
        assert(reached.evaluated[w] == x);
    }
    assert(reached.evaluated[n] == h);
    assert forall|x: Handle| p.changed.contains(x) implies reached.changed.contains(x) by {
        let w = choose|w: int| 0 <= w < p.changed.len() && p.changed[w] == x;
        assert(reached.changed[w] == x);
    }
    assert forall|x: Handle| reached.changed.contains(x) implies p.changed.contains(x) || (flag && x == h) by {
        let w = choose|w: int| 0 <= w < reached.changed.len() && reached.changed[w] == x;
        if w < p.changed.len() {
            assert(p.changed[w] == x);
        }
    }
    if flag {
        assert(reached.changed[p.changed.len() as int] == h);
    }
    assert(inv_reason(reached)) by {
        assert forall|x: Handle| #[trigger] touched(reached, x) implies reason(reached, x) by {
            if reached.path.contains(x) {
                lemma_contains_of_drop_last(p.path, x);
            }
            if x == h {
                assert(p.path[m] == h);
                assert(p.path.contains(h));
            }
            if touched(p, x) {
                lemma_reason_kept(p, reached, x);
            } else {
                assert(reached.wave.contains(x));
                assert(flag && p.before.notifies(h, x));
                assert((reached.frontier.contains(h) || reached.changed.contains(h)) && reached.before.notifies(h, x));
            }
        }
    }
    assert(inv_frame(reached)) by {
        assert(reached.before.same_shape(reached.now)) by {
            assert forall|i: int| 0 <= i < reached.before.slots.len() implies {
                let a = #[trigger] reached.before.slots[i];
                let b = reached.now.slots[i];
                &&& a is Some <==> b is Some
                &&& a is Some ==> {
                    &&& a->0.kind == b->0.kind
                    &&& a->0.cell is Some <==> b->0.cell is Some
                    &&& a->0.cell is Some ==> a->0.cell->0.subscribers == b->0.cell->0.subscribers
                }
            } by {
                let c = p.before.slots[i];
                assert(p.now.slots[i] is Some <==> c is Some);
                if i == h.0 {
                    assert(c->0.wf());
                }
            }
        }
    }
    assert(inv_lists(reached)) by {
        assert forall|x: Handle| #[trigger] reached.evaluated.contains(x) implies x.0 < reached.marks.len()
            && reached.marks[x.0 as int] is Evaluated by {
            let w = choose|w: int| 0 <= w < reached.evaluated.len() && reached.evaluated[w] == x;
            if w < n {
                assert(p.evaluated[w] == x);
                assert(p.evaluated.contains(x));
            }
        }
        assert forall|x: Handle|
            x.0 < reached.marks.len() && #[trigger] reached.marks[x.0 as int] is Evaluated implies reached.evaluated.contains(
            x,
        ) by {
            if x != h {
                assert(p.marks[x.0 as int] is Evaluated);
            }
        }
        assert forall|x: Handle| #[trigger] reached.refused.contains(x) implies x.0 < reached.marks.len()
            && reached.marks[x.0 as int] is Refused by {
            assert(p.refused.contains(x));
        }
        assert forall|x: Handle|
            x.0 < reached.marks.len() && #[trigger] reached.marks[x.0 as int] is Refused implies reached.refused.contains(
            x,
        ) by {
            assert(p.marks[x.0 as int] is Refused);
        }
        assert(reached.evaluated.no_duplicates()) by {
            assert forall|a: int, b: int| 0 <= a < reached.evaluated.len() && 0 <= b < reached.evaluated.len() && a != b implies reached.evaluated[a]
                != reached.evaluated[b] by {
                if a == n {
                    assert(p.evaluated.contains(p.evaluated[b]));
                } else if b == n {
                    assert(p.evaluated.contains(p.evaluated[a]));
                }
            }
        }
        assert forall|k: int| 0 <= k < reached.wave.len() implies reached.before.is_computed(#[trigger] reached.wave[k]) by {
            let x = reached.wave[k];
            assert(reached.wave.contains(x));
            if p.wave.contains(x) {
                let w = choose|w: int| 0 <= w < p.wave.len() && p.wave[w] == x;
                assert(p.before.is_computed(p.wave[w]));
            }
        }
        assert forall|k: int| 0 <= k < reached.path.len() implies reached.before.is_computed(#[trigger] reached.path[k]) by {
            assert(reached.path[k] == p.path[k]);
        }
    }
    assert(inv_settled(reached)) by {
        assert forall|k: int| 0 <= k < reached.evaluated.len() implies reached.before.settled(
            reached.now,
            #[trigger] reached.evaluated[k],
            reached.changed.contains(reached.evaluated[k]),
        ) by {
            if k == n {
                lemma_inputs_kept(p.now, h, outcome, h);
                assert(reached.changed.contains(h) == flag);
                assert(p.before.outcome_of(reached.now, h, flag, args, out));
            } else {
                let e = p.evaluated[k];
                assert(reached.evaluated[k] == e);
                assert(p.evaluated.contains(e));
                assert(e != h);
                let was = p.changed.contains(e);
                assert(reached.changed.contains(e) == was);
                assert(p.before.settled(p.now, e, was));
                let (a0, o0) = choose|a0: Vec<Reading>, o0: Reading| #[trigger]
                    p.before.outcome_of(p.now, e, was, a0, o0);
                assert(p.before.slots[e.0 as int] is Some);
                assert(p.now.node(e).kind == p.before.node(e).kind);
                assert(!p.now.node(e).sources().contains(h)) by {
                    if p.now.node(e).sources().contains(h) {
                        assert(p.before.depends(p.evaluated[k], h));
                        if earlier(p.evaluated, k, h) {
                            let w = choose|w: int|
                                0 <= w < p.evaluated.take(k).len() && p.evaluated.take(k)[w] == h;
                            assert(p.evaluated[w] == h);
                        }
                    }
                }
                lemma_inputs_kept(p.now, h, outcome, e);
                assert(p.before.outcome_of(reached.now, e, was, a0, o0));
            }
        }
    }
    assert(inv_order(reached)) by {
        assert forall|k: int, s: Handle|
            0 <= k < reached.evaluated.len() && #[trigger] reached.before.depends(reached.evaluated[k], s) implies earlier(
            reached.evaluated,
            k,
            s,
        ) || reached.refused.contains(s) by {
            if k == n {
                assert(resolved(p.marks, s));
                if p.marks[s.0 as int] is Evaluated {
                    assert(p.evaluated.contains(s));
                    assert(reached.evaluated.take(k) =~= p.evaluated);
                }
            } else {
                assert(reached.evaluated[k] == p.evaluated[k]);
                assert(reached.evaluated.take(k) =~= p.evaluated.take(k));
            }
        }
    }
    assert(inv_wave(reached)) by {
        assert forall|x: Handle| waiting(p, x) implies waiting(reached, x) by {
            if reached.marks[x.0 as int] is Untouched && !p.wave.contains(x) {
                assert(x != h);
                lemma_contains_drop_last(p.path, x);
            }
        }
        assert forall|f: Handle, x: Handle|
            (reached.frontier.contains(f) || reached.changed.contains(f)) && #[trigger] reached.before.notifies(
                f,
                x,
            ) implies waiting(reached, x) by {
            if p.frontier.contains(f) || p.changed.contains(f) {
                assert(waiting(p, x));
            } else {
                assert(f == h && flag);
            }
        }
        assert forall|x: Handle| #[trigger] reached.before.awaits_compute(x) implies waiting(reached, x) by {
            assert(waiting(p, x));
        }
        assert forall|x: Handle|
            x.0 < reached.marks.len() && #[trigger] reached.marks[x.0 as int] is Visiting implies reached.path.contains(
            x,
        ) by {
            assert(x != h);
            assert(p.marks[x.0 as int] is Visiting);
            lemma_contains_drop_last(p.path, x);
        }
    }
    assert(inv_rank(reached, rank)) by {
        if p.before.ranked(rank) {
            assert forall|k: int| 0 <= k < p.path.len() implies (#[trigger] p.path[k]).0 < p.marks.len() by {
                assert(p.before.is_computed(p.path[k]));
            }
            lemma_rank_after_pop(p, reached, rank);
        }
    }
}


/// The computed sources of `h` that the pass is not done with.
fn pending_sources<P: Fn(Vec<Reading>) -> Reading, E: Fn(Vec<Reading>, S) -> S, S>(
    graph: &SignalGraph<P, E, S>,
    marks: &Vec<Mark>,
    h: Handle,
) -> (pending: Vec<Handle>)
    requires
        marks@.len() == graph@.slots.len(),
        graph@.is_computed(h),
    ensures
        forall|s: Handle| pending@.contains(s) <==> (graph@.depends(h, s) && !resolved(marks@, s)),
{
    let sources = graph.sources(h);
    let mut pending: Vec<Handle> = Vec::new();
    let mut k: usize = 0;
    while k < sources.len()
        invariant
            k <= sources.len(),
            marks@.len() == graph@.slots.len(),
            graph@.is_computed(h),
            sources@ == graph@.node(h).sources(),
            forall|s: Handle| #[trigger]
                pending@.contains(s) ==> graph@.is_computed(s) && sources@.take(k as int).contains(s)
                    && !resolved(marks@, s),
            forall|s: Handle|
                graph@.is_computed(s) && #[trigger] sources@.take(k as int).contains(s) && !resolved(
                    marks@,
                    s,
                ) ==> pending@.contains(s),
        decreases sources.len() - k,
    {
        let s = sources[k];
        let ghost before = pending@;
        let mut waits = false;
        if graph.is_computed(s) {
            let m = marks[s.0];
            waits = !(m == Mark::Evaluated || m == Mark::Refused);
        }
        if waits {
            pending.push(s);
        }
        proof {
            let shorter = sources@.take(k as int);
            let longer = sources@.take(k + 1);
            assert(longer =~= shorter.push(s));
            assert forall|x: Handle| #[trigger] pending@.contains(x) implies graph@.is_computed(x)
                && longer.contains(x) && !resolved(marks@, x) by {
                let w = choose|w: int| 0 <= w < pending@.len() && pending@[w] == x;
                if w < before.len() {
                    assert(before[w] == x);
                    assert(before.contains(x));
                    assert(shorter.contains(x));
                    let v = choose|v: int| 0 <= v < shorter.len() && shorter[v] == x;
                    assert(longer[v] == x);
                } else {
                    assert(x == s);
                    assert(longer[k as int] == x);
                }
            }
            assert forall|x: Handle|
                graph@.is_computed(x) && #[trigger] longer.contains(x) && !resolved(
                    marks@,
                    x,
                ) implies pending@.contains(x) by {
                let v = choose|v: int| 0 <= v < longer.len() && longer[v] == x;
                if v < k {
                    assert(shorter[v] == x);
                    assert(shorter.contains(x));
                    assert(before.contains(x));
                    let w = choose|w: int| 0 <= w < before.len() && before[w] == x;
                    assert(pending@[w] == x);
                } else {
                    assert(x == s);
                    assert(waits);
                    assert(pending@[before.len() as int] == x);
                }
            }
        }
        k += 1;
    }
    proof {
        assert(sources@.take(k as int) =~= sources@);
        assert forall|x: Handle| pending@.contains(x) <==> (graph@.depends(h, x) && !resolved(marks@, x)) by {
            if graph@.depends(h, x) && !resolved(marks@, x) {
                assert(sources@.take(k as int).contains(x));
            }
        }
    }
    pending
}

/// Adds to `wave` the computed nodes that a change of `f` notifies and that
/// the pass has not met yet.
fn push_subscribers<P: Fn(Vec<Reading>) -> Reading, E: Fn(Vec<Reading>, S) -> S, S>(
    graph: &SignalGraph<P, E, S>,
    marks: &Vec<Mark>,
    f: Handle,
    wave: &mut Vec<Handle>,
)
    requires
        marks@.len() == graph@.slots.len(),
    ensures
        forall|x: Handle| old(wave)@.contains(x) ==> final(wave)@.contains(x),
        forall|x: Handle|
            graph@.notifies(f, x) && marks@[x.0 as int] is Untouched ==> final(wave)@.contains(x),
        forall|x: Handle| #[trigger]
            final(wave)@.contains(x) ==> old(wave)@.contains(x) || graph@.notifies(f, x),
{
    let subscribers = graph.subscribers(f);
    let mut k: usize = 0;
    while k < subscribers.len()
        invariant
            k <= subscribers.len(),
            marks@.len() == graph@.slots.len(),
            subscribers@.to_set() == graph@.subscribers(f),
            forall|x: Handle| old(wave)@.contains(x) ==> wave@.contains(x),
            forall|x: Handle|
                graph@.is_computed(x) && #[trigger] subscribers@.take(k as int).contains(x)
                    && marks@[x.0 as int] is Untouched ==> wave@.contains(x),
            forall|x: Handle| #[trigger]
                wave@.contains(x) ==> old(wave)@.contains(x) || graph@.notifies(f, x),
        decreases subscribers.len() - k,
    {
        let x = subscribers[k];
        let ghost before = wave@;
        let mut fresh = false;
        if graph.is_computed(x) {
            fresh = marks[x.0] == Mark::Untouched;
        }
        if fresh {
            wave.push(x);
        }
        proof {
            let shorter = subscribers@.take(k as int);
            let longer = subscribers@.take(k + 1);
            assert(longer =~= shorter.push(x));
            assert(subscribers@[k as int] == x);
            assert(subscribers@.contains(x));
            assert(subscribers@.to_set().contains(x));
            assert forall|y: Handle| before.contains(y) implies wave@.contains(y) by {
                let w = choose|w: int| 0 <= w < before.len() && before[w] == y;
                assert(wave@[w] == y);
            }
            assert forall|y: Handle|
                graph@.is_computed(y) && #[trigger] longer.contains(y) && marks@[y.0 as int] is Untouched implies wave@.contains(
                y,
            ) by {
                let v = choose|v: int| 0 <= v < longer.len() && longer[v] == y;
                if v < k {
                    assert(shorter[v] == y);
                    assert(shorter.contains(y));
                    assert(before.contains(y));
                } else {
                    assert(y == x);
                    assert(fresh);
                    assert(wave@[before.len() as int] == y);
                }
            }
            assert forall|y: Handle| #[trigger] wave@.contains(y) implies old(wave)@.contains(y)
                || graph@.notifies(f, y) by {
                let w = choose|w: int| 0 <= w < wave@.len() && wave@[w] == y;
                if w < before.len() {
                    assert(before[w] == y);
                    assert(before.contains(y));
                } else {
                    assert(y == x);
                    assert(fresh);
                    assert(graph@.subscribers(f).contains(x));
                    assert(graph@.notifies(f, y));
                }
            }
        }
        k += 1;
    }
    proof {
        assert(subscribers@.take(k as int) =~= subscribers@);
        assert forall|y: Handle|
            graph@.notifies(f, y) && marks@[y.0 as int] is Untouched implies wave@.contains(y) by {
            assert(subscribers@.to_set().contains(y));
        }
    }
}

/// Graphs of the same shape have the same computed nodes, the same reads
/// and the same notifications.
proof fn lemma_shape<P, E>(a: GraphModel<P, E>, b: GraphModel<P, E>)
    requires
        a.same_shape(b),
    ensures
        forall|h: Handle| a.is_computed(h) == b.is_computed(h),
        forall|h: Handle, s: Handle| a.depends(h, s) == b.depends(h, s),
        forall|f: Handle, h: Handle| a.notifies(f, h) == b.notifies(f, h),
{
    assert forall|h: Handle| a.is_computed(h) == b.is_computed(h) by {
        if h.0 < a.slots.len() {
            assert(a.slots[h.0 as int] is Some <==> b.slots[h.0 as int] is Some);
        }
    }
    assert forall|h: Handle, s: Handle| a.depends(h, s) == b.depends(h, s) by {
        if h.0 < a.slots.len() {
            assert(a.slots[h.0 as int] is Some <==> b.slots[h.0 as int] is Some);
        }
    }
    assert forall|f: Handle, h: Handle| a.notifies(f, h) == b.notifies(f, h) by {
        if f.0 < a.slots.len() {
            assert(a.slots[f.0 as int] is Some <==> b.slots[f.0 as int] is Some);
        }
    }
}

/// Brings the computed nodes of the graph up to date after the cells in
/// `frontier` changed.
///
/// The pass starts from the computed nodes that await their first
/// evaluation and from those that a cell of the frontier notifies. A node is
/// evaluated when the pass is done with every computed node that it reads;
/// where its cell then reports a change, the computed nodes that it notifies
/// follow. A node that is met again while it still waits for a source waits
/// for itself: it is refused, left as it was and reported. No node is
/// evaluated twice, and nothing but the cells of evaluated nodes changes.
pub fn compute_memos<P: Fn(Vec<Reading>) -> Reading, E: Fn(Vec<Reading>, S) -> S, S>(
    graph: &mut SignalGraph<P, E, S>,
    frontier: &Vec<Handle>,
) -> (report: Propagation)
    requires
        old(graph).wf(),
    ensures
        final(graph).wf(),
        old(graph)@.propagates(
            frontier@,
            final(graph)@,
            report.evaluated@,
            report.changed@,
            report.refused@,
        ),
{
    let n = graph.capacity();
    let ghost before = graph@;
    let ghost rank = choose|rank: spec_fn(Handle) -> nat| before.ranked(rank);
    let mut marks: Vec<Mark> = Vec::new();
    let mut i: usize = 0;
    while i < n
        invariant
            i <= n,
            marks@.len() == i,
            forall|k: int| 0 <= k < i ==> #[trigger] marks@[k] is Untouched,
        decreases n - i,
    {
        marks.push(Mark::Untouched);
        i += 1;
    }
    let mut wave: Vec<Handle> = Vec::new();
    i = 0;
    while i < n
        invariant
            i <= n,
            n == graph@.slots.len(),
            forall|h: Handle| h.0 < i && #[trigger] graph@.awaits_compute(h) ==> wave@.contains(h),
            forall|x: Handle| #[trigger] wave@.contains(x) ==> graph@.awaits_compute(x),
        decreases n - i,
    {
        let h = Handle(i);
        let ghost was = wave@;
        if graph.awaits_compute(h) {
            wave.push(h);
            proof {
                assert(wave@[was.len() as int] == h);
                assert forall|x: Handle| was.contains(x) implies wave@.contains(x) by {
                    let w = choose|w: int| 0 <= w < was.len() && was[w] == x;
                    assert(wave@[w] == x);
                }
                assert forall|x: Handle| #[trigger] wave@.contains(x) implies graph@.awaits_compute(x) by {
                    let w = choose|w: int| 0 <= w < wave@.len() && wave@[w] == x;
                    if w < was.len() {
                        assert(was[w] == x);
                        assert(was.contains(x));
                    }
                }
            }
        }
        i += 1;
    }
    let mut k: usize = 0;
    while k < frontier.len()
        invariant
            k <= frontier.len(),
            n == graph@.slots.len(),
            marks@.len() == n,
            forall|j: int| 0 <= j < n ==> #[trigger] marks@[j] is Untouched,
            forall|h: Handle| #[trigger] graph@.awaits_compute(h) ==> wave@.contains(h),
            forall|f: Handle, h: Handle|
                frontier@.take(k as int).contains(f) && #[trigger] graph@.notifies(f, h) ==> wave@.contains(h),
            forall|x: Handle| #[trigger]
                wave@.contains(x) ==> graph@.awaits_compute(x) || exists|f: Handle|
                    frontier@.contains(f) && #[trigger] graph@.notifies(f, x),
        decreases frontier.len() - k,
    {
        let f = frontier[k];
        let ghost was = wave@;
        push_subscribers(graph, &marks, f, &mut wave);
        proof {
            let shorter = frontier@.take(k as int);
            let longer = frontier@.take(k + 1);
            assert(longer =~= shorter.push(f));
            assert(frontier@[k as int] == f);
            assert forall|g: Handle, h: Handle|
                longer.contains(g) && #[trigger] graph@.notifies(g, h) implies wave@.contains(h) by {
                let v = choose|v: int| 0 <= v < longer.len() && longer[v] == g;
                if v < k {
                    assert(shorter[v] == g);
                    assert(shorter.contains(g));
                    assert(was.contains(h));
                } else {
                    assert(g == f);
                    assert(marks@[h.0 as int] is Untouched);
                }
            }
            assert forall|x: Handle| #[trigger] wave@.contains(x) implies graph@.awaits_compute(x)
                || exists|g: Handle| frontier@.contains(g) && #[trigger] graph@.notifies(g, x) by {
                if !was.contains(x) {
                    assert(frontier@.contains(f) && graph@.notifies(f, x));
                }
            }
        }
        k += 1;
    }
    assert(frontier@.take(k as int) =~= frontier@);
    let mut path: Vec<Handle> = Vec::new();
    let mut evaluated: Vec<Handle> = Vec::new();
    let mut changed: Vec<Handle> = Vec::new();
    let mut refused: Vec<Handle> = Vec::new();
    let ghost idle = wave@.len() == 0;
    let ghost quiet = before.quiet(frontier@);
    proof {
        if quiet && wave@.len() > 0 {
            assert(wave@.contains(wave@[0]));
            assert(false);
        }
        let start = Pass {
            before,
            now: graph@,
            frontier: frontier@,
            marks: marks@,
            wave: wave@,
            path: path@,
            evaluated: evaluated@,
            changed: changed@,
            refused: refused@,
        };
        assert(inv_reason(start)) by {
            assert forall|x: Handle| #[trigger] touched(start, x) implies reason(start, x) by {
                assert(start.wave.contains(x));
            }
        }
        assert(inv_frame(start));
        assert(inv_lists(start)) by {
            assert forall|j: int| 0 <= j < start.wave.len() implies start.before.is_computed(#[trigger] start.wave[j]) by {
                assert(start.wave.contains(start.wave[j]));
            }
        }
        assert(inv_settled(start));
        assert(inv_order(start));
        assert(inv_wave(start));
        assert(inv_rank(start, rank));
    }
    while path.len() > 0 || wave.len() > 0
        invariant
            graph.wf(),
            n == before.slots.len(),
            marks@.len() == n,
            before == old(graph)@,
            inv(
                (Pass {
                    before,
                    now: graph@,
                    frontier: frontier@,
                    marks: marks@,
                    wave: wave@,
                    path: path@,
                    evaluated: evaluated@,
                    changed: changed@,
                    refused: refused@,
                }),
                rank,
            ),
            quiet ==> idle,
            idle ==> wave@.len() == 0 && path@.len() == 0 && evaluated@.len() == 0 && refused@.len() == 0,
        decreases weight(marks@), 2 * wave@.len() + path@.len(),
    {
        let ghost p = Pass {
            before,
            now: graph@,
            frontier: frontier@,
            marks: marks@,
            wave: wave@,
            path: path@,
            evaluated: evaluated@,
            changed: changed@,
            refused: refused@,
        };
        proof {
            lemma_shape(before, graph@);
        }
        if path.len() == 0 {
            let top_index = wave.len() - 1;
            let d = wave[top_index];
            assert(before.is_computed(p.wave[top_index as int]));
            wave.pop();
            if marks[d.0] == Mark::Untouched {
                path.push(d);
            }
            proof {
                let reached = Pass { wave: wave@, path: path@, ..p };
                assert(reached.path =~= if p.marks[p.wave.last().0 as int] is Untouched {
                    seq![p.wave.last()]
                } else {
                    Seq::<Handle>::empty()
                });
                lemma_step_take(p, reached, rank);
            }
        } else {
            let top_index = path.len() - 1;
            let h = path[top_index];
            assert(before.is_computed(p.path[top_index as int]));
            let m = marks[h.0];
            if m == Mark::Evaluated || m == Mark::Refused {
                path.pop();
                proof {
                    lemma_step_drop(p, Pass { path: path@, ..p }, rank);
                }
            } else {
                let pending = pending_sources(graph, &marks, h);
                if pending.len() == 0 {
                    path.pop();
                    match graph.evaluate(h) {
                        Ok(flag) => {
                            assert(exists|args: Vec<Reading>, out: Reading| #[trigger]
                                p.now.evaluation(h, args, out, graph@, flag));
                            let ghost evaluated_graph = graph@;
                            marks.set(h.0, Mark::Evaluated);
                            evaluated.push(h);
                            if flag {
                                changed.push(h);
                                proof {
                                    lemma_shape(before, graph@);
                                }
                                push_subscribers(graph, &marks, h, &mut wave);
                            }
                            proof {
                                let reached = Pass {
                                    before,
                                    now: graph@,
                                    frontier: frontier@,
                                    marks: marks@,
                                    wave: wave@,
                                    path: path@,
                                    evaluated: evaluated@,
                                    changed: changed@,
                                    refused: refused@,
                                };
                                lemma_weight_update(p.marks, h.0 as int, Mark::Evaluated);
                                assert(p.path.last() == h);
                                assert(reached.now == evaluated_graph);
                                assert forall|s: Handle| #[trigger] p.before.depends(h, s) implies resolved(
                                    p.marks,
                                    s,
                                ) by {
                                    if !resolved(p.marks, s) {
                                        assert(pending@.contains(s));
                                        let w = choose|w: int| 0 <= w < pending@.len() && pending@[w] == s;
                                    }
                                }
                                lemma_step_eval(p, reached, rank, flag);
                            }
                        },
                        Err(_) => {
                            assert(false);
                        },
                    }
                } else if m == Mark::Visiting {
                    let s = pending[0];
                    path.pop();
                    marks.set(h.0, Mark::Refused);
                    refused.push(h);
                    proof {
                        assert(pending@.contains(s));
                        lemma_weight_update(p.marks, h.0 as int, Mark::Refused);
                        lemma_step_refuse(
                            p,
                            Pass { marks: marks@, refused: refused@, path: path@, ..p },
                            rank,
                            s,
                        );
                    }
                } else {
                    marks.set(h.0, Mark::Visiting);
                    let mut j: usize = 0;
                    while j < pending.len()
                        invariant
                            j <= pending.len(),
                            path@ == p.path + pending@.take(j as int),
                        decreases pending.len() - j,
                    {
                        path.push(pending[j]);
                        proof {
                            assert(pending@.take(j + 1) =~= pending@.take(j as int).push(pending@[j as int]));
                            assert(path@ =~= p.path + pending@.take(j + 1));
                        }
                        j += 1;
                    }
                    proof {
                        assert(pending@.take(j as int) =~= pending@);
                        lemma_weight_update(p.marks, h.0 as int, Mark::Visiting);
                        lemma_step_visit(p, Pass { marks: marks@, path: path@, ..p }, rank, pending@);
                    }
                }
            }
        }
    }
    proof {
        let p = Pass {
            before,
            now: graph@,
            frontier: frontier@,
            marks: marks@,
            wave: wave@,
            path: path@,
            evaluated: evaluated@,
            changed: changed@,
            refused: refused@,
        };
        assert forall|h: Handle| h.0 < n implies !(#[trigger] p.marks[h.0 as int] is Visiting) by {
            if p.marks[h.0 as int] is Visiting {
                assert(p.path.contains(h));
            }
        }
        assert forall|h: Handle| waiting(p, h) implies evaluated@.contains(h) || refused@.contains(h) by {
            assert(!(p.marks[h.0 as int] is Visiting));
            assert(p.marks[h.0 as int] is Evaluated || p.marks[h.0 as int] is Refused);
        }
        assert forall|h: Handle|
            h.0 < before.slots.len() && !evaluated@.contains(h) implies graph@.slots[h.0 as int]
                == before.slots[h.0 as int] by {
            assert(!(p.marks[h.0 as int] is Evaluated));
        }
        assert forall|k: int| 0 <= k < evaluated@.len() implies before.is_computed(#[trigger] evaluated@[k]) by {
            assert(evaluated@.contains(evaluated@[k]));
        }
        if before.acyclic() {
            assert(before.ranked(rank));
        }
        assert forall|h: Handle| evaluated@.contains(h) || refused@.contains(h) implies #[trigger] before.stale(
            frontier@,
            evaluated@,
            changed@,
            refused@,
            h,
        ) by {
            if evaluated@.contains(h) {
                assert(p.evaluated.contains(h));
            } else {
                assert(p.refused.contains(h));
            }
            assert(touched(p, h));
            assert(reason(p, h));
            if !before.awaits_compute(h) && !(exists|f: Handle|
                (frontier@.contains(f) || changed@.contains(f)) && #[trigger] before.notifies(f, h)) {
                let y = choose|y: Handle|
                    y.0 < p.marks.len() && !(p.marks[y.0 as int] is Untouched) && #[trigger] p.before.depends(
                        y,
                        h,
                    );
                assert(!(p.marks[y.0 as int] is Visiting));
                assert(p.marks[y.0 as int] is Evaluated || p.marks[y.0 as int] is Refused);
                assert((evaluated@.contains(y) || refused@.contains(y)) && before.depends(y, h));
            }
        }
        assert forall|h: Handle| #[trigger] refused@.contains(h) implies before.is_computed(h)
            && !evaluated@.contains(h) by {
            assert(p.refused.contains(h));
            assert(inv_lists(p));
            assert(h.0 < p.marks.len() && p.marks[h.0 as int] is Refused);
            if evaluated@.contains(h) {
                assert(p.evaluated.contains(h));
            }
        }
    }
    Propagation { evaluated, changed, refused }
}


} // verus!
