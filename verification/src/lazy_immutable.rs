//! The state cell: a committed value, a staged one, and two sets of
//! subscribers.

use vstd::prelude::*;
use crate::value::{
    copy_reading, holds_handle, reading_model, readings_agree, same_value, Handle, Reading,
    ReadingModel, SignalError, Value,
};

verus! {

/// The mathematical content of a [`LazySignalsState`].
#[verifier::ext_equal]
pub struct StateModel {
    /// The committed value.
    pub current: ReadingModel,
    /// The value staged for the next commit, if any.
    pub pending: ReadingModel,
    /// Whether the staged value counts as a change even when it is equal to
    /// the committed one.
    pub force: bool,
    /// The subscribers that propagation notifies.
    pub subscribers: Set<Handle>,
    /// The subscribers added since the last merge.
    pub staged: Set<Handle>,
}

impl StateModel {
    /// A cell that holds `initial`, with nothing staged and no subscribers.
    pub open spec fn fresh(initial: ReadingModel) -> StateModel {
        StateModel {
            current: initial,
            pending: None,
            force: false,
            subscribers: Set::empty(),
            staged: Set::empty(),
        }
    }

    /// Stages `value`, replacing whatever was staged before.
    pub open spec fn merge_next(self, value: ReadingModel, force: bool) -> StateModel {
        StateModel { pending: value, force, ..self }
    }

    /// Whether a commit would report a change: something is staged, and it
    /// is forced or differs from the committed value.
    pub open spec fn commit_changes(self) -> bool {
        self.pending is Some && (self.force || !same_value(self.pending, self.current))
    }

    /// The cell after a commit.
    pub open spec fn commit(self) -> StateModel {
        if self.pending is None {
            self
        } else if self.commit_changes() {
            StateModel { current: self.pending, pending: None, force: false, ..self }
        } else {
            StateModel { pending: None, force: false, ..self }
        }
    }

    /// The cell after `h` has asked to subscribe.
    pub open spec fn register_subscriber(self, h: Handle) -> StateModel {
        StateModel { staged: self.staged.insert(h), ..self }
    }

    /// The cell after the staged subscribers have become visible.
    pub open spec fn merge_subscribers(self) -> StateModel {
        StateModel {
            subscribers: self.subscribers.union(self.staged),
            staged: Set::empty(),
            ..self
        }
    }

    /// The cell after a computation has produced `outcome`: a withheld
    /// outcome leaves the cell alone, any other is staged without force and
    /// committed at once.
    pub open spec fn absorb(self, outcome: ReadingModel) -> StateModel {
        if outcome is None {
            self
        } else {
            self.merge_next(outcome, false).commit()
        }
    }

    /// Whether absorbing `outcome` reports a change.
    pub open spec fn absorb_changes(self, outcome: ReadingModel) -> bool {
        outcome is Some && !same_value(outcome, self.current)
    }
}

/// A versioned state container.
pub struct LazySignalsState {
    current: Reading,
    pending: Reading,
    force: bool,
    subscribers: Vec<Handle>,
    staged: Vec<Handle>,
}

impl View for LazySignalsState {
    type V = StateModel;

    closed spec fn view(&self) -> StateModel {
        StateModel {
            current: reading_model(self.current),
            pending: reading_model(self.pending),
            force: self.force,
            subscribers: self.subscribers@.to_set(),
            staged: self.staged@.to_set(),
        }
    }
}

impl LazySignalsState {
    /// A cell that holds `initial`.
    pub fn new(initial: Reading) -> (cell: LazySignalsState)
        ensures
            cell@ == StateModel::fresh(reading_model(initial)),
    {
        let cell = LazySignalsState {
            current: initial,
            pending: None,
            force: false,
            subscribers: Vec::new(),
            staged: Vec::new(),
        };
        assert(cell.subscribers@.to_set() =~= Set::<Handle>::empty());
        assert(cell.staged@.to_set() =~= Set::<Handle>::empty());
        cell
    }

    /// Stages `value` for the next commit. The committed value stays as it
    /// is; a value staged earlier is lost.
    pub fn merge_next(&mut self, value: Reading, force: bool)
        ensures
            final(self)@ == old(self)@.merge_next(reading_model(value), force),
    {
        self.pending = value;
        self.force = force;
    }

    /// Applies the staged value and says whether the cell changed.
    pub fn commit(&mut self) -> (changed: bool)
        ensures
            final(self)@ == old(self)@.commit(),
            changed == old(self)@.commit_changes(),
    {
        if self.pending.is_none() {
            return false;
        }
        let changed = self.force || !readings_agree(&self.pending, &self.current);
        let staged = self.pending.take();
        if changed {
            self.current = staged;
        }
        self.force = false;
        changed
    }

    /// Records `h` as a subscriber that becomes visible at the next merge.
    pub fn register_subscriber(&mut self, h: Handle)
        ensures
            final(self)@ == old(self)@.register_subscriber(h),
    {
        if !holds_handle(&self.staged, h) {
            self.staged.push(h);
        }
        proof {
            old(self).staged@.lemma_push_to_set_commute(h);
            assert(self.staged@.to_set() =~= old(self).staged@.to_set().insert(h));
        }
    }

    /// Makes the staged subscribers visible.
    pub fn merge_subscribers(&mut self)
        ensures
            final(self)@ == old(self)@.merge_subscribers(),
    {
        let mut i: usize = 0;
        while i < self.staged.len()
            invariant
                i <= self.staged.len(),
                self.staged == old(self).staged,
                self.current == old(self).current,
                self.pending == old(self).pending,
                self.force == old(self).force,
                self.subscribers@.to_set() =~= old(self).subscribers@.to_set().union(
                    self.staged@.take(i as int).to_set(),
                ),
            decreases self.staged.len() - i,
        {
            let h = self.staged[i];
            let ghost before = self.subscribers@;
            if !holds_handle(&self.subscribers, h) {
                self.subscribers.push(h);
            }
            proof {
                before.lemma_push_to_set_commute(h);
                self.staged@.take(i as int).lemma_push_to_set_commute(h);
                assert(self.staged@.take(i + 1) =~= self.staged@.take(i as int).push(h));
                assert(self.subscribers@.to_set() =~= before.to_set().insert(h));
            }
            i += 1;
        }
        assert(self.staged@.take(i as int) =~= self.staged@);
        self.staged = Vec::new();
        assert(self.staged@.to_set() =~= Set::<Handle>::empty());
    }

    /// The committed value.
    pub fn read(&self) -> (r: Reading)
        ensures
            reading_model(r) == self@.current,
    {
        copy_reading(&self.current)
    }

    /// The committed value, or why there is none: the error that the cell
    /// holds, or `ReadBeforeInitialized` for a cell that holds nothing.
    pub fn value(&self) -> (r: Result<Value, SignalError>)
        ensures
            match self@.current {
                None => r == Err::<Value, SignalError>(SignalError::ReadBeforeInitialized),
                Some(Err(e)) => r == Err::<Value, SignalError>(e),
                Some(Ok(v)) => r is Ok && r->Ok_0@ == v,
            },
    {
        match &self.current {
            None => Err(SignalError::ReadBeforeInitialized),
            Some(Err(e)) => Err(*e),
            Some(Ok(v)) => Ok(v.duplicate()),
        }
    }

    /// Whether a value is staged.
    pub fn has_pending(&self) -> (r: bool)
        ensures
            r == (self@.pending is Some),
    {
        self.pending.is_some()
    }

    /// The visible subscribers, each once.
    pub fn subscribers(&self) -> (list: &Vec<Handle>)
        ensures
            list@.to_set() == self@.subscribers,
    {
        &self.subscribers
    }
}

} // verus!
