//! Payloads, errors and node handles.

use vstd::prelude::*;

verus! {

/// Identifies a node of a graph. A handle is only ever looked up, never
/// dereferenced.
#[derive(Clone, Copy, Debug, PartialEq, Eq, Hash, Structural)]
pub struct Handle(pub usize);

/// What can go wrong in a graph.
#[derive(Clone, Copy, Debug, PartialEq, Eq, Structural)]
pub enum SignalError {
    /// The cell has never held a value.
    ReadBeforeInitialized,
    /// A computation reported a failure of its own, identified by its code.
    PropagatorError(u64),
    /// The handle names no node that could take the request.
    MissingHandle(Handle),
    /// The node was met again on its own dependency path before it could be
    /// resolved.
    CycleDetected(Handle),
}

/// A payload that a cell can hold.
#[derive(Clone, Debug, PartialEq, Eq)]
pub enum Value {
    Unit,
    Bool(bool),
    Int(i64),
    Text(String),
}

/// The mathematical content of a [`Value`].
pub enum ValueModel {
    Unit,
    Bool(bool),
    Int(int),
    Text(Seq<char>),
}

impl View for Value {
    type V = ValueModel;

    open spec fn view(&self) -> ValueModel {
        match *self {
            Value::Unit => ValueModel::Unit,
            Value::Bool(b) => ValueModel::Bool(b),
            Value::Int(i) => ValueModel::Int(i as int),
            Value::Text(s) => ValueModel::Text(s@),
        }
    }
}

/// What a cell holds at one moment: nothing yet, a value, or an error.
pub type Reading = Option<Result<Value, SignalError>>;

/// The mathematical content of a [`Reading`].
pub type ReadingModel = Option<Result<ValueModel, SignalError>>;

/// The content of one reading.
pub open spec fn reading_model(r: Reading) -> ReadingModel {
    match r {
        None => None,
        Some(Ok(v)) => Some(Ok(v@)),
        Some(Err(e)) => Some(Err(e)),
    }
}

/// The contents of a tuple of readings, position by position.
pub open spec fn readings_model(rs: Seq<Reading>) -> Seq<ReadingModel> {
    Seq::new(rs.len(), |i: int| reading_model(rs[i]))
}

/// Value equality of two readings: both hold a value, and the same one. An
/// absent reading and an error are equal to nothing, themselves included.
pub open spec fn same_value(a: ReadingModel, b: ReadingModel) -> bool {
    match (a, b) {
        (Some(Ok(x)), Some(Ok(y))) => x == y,
        _ => false,
    }
}

impl Value {
    /// Whether two payloads have the same content.
    pub fn same(&self, other: &Value) -> (r: bool)
        ensures
            r == (self@ == other@),
    {
        match (self, other) {
            (Value::Unit, Value::Unit) => true,
            (Value::Bool(a), Value::Bool(b)) => *a == *b,
            (Value::Int(a), Value::Int(b)) => *a == *b,
            (Value::Text(a), Value::Text(b)) => a.eq(b),
            _ => false,
        }
    }

    /// A copy of the payload.
    pub fn duplicate(&self) -> (r: Value)
        ensures
            r == *self,
    {
        match self {
            Value::Unit => Value::Unit,
            Value::Bool(a) => Value::Bool(*a),
            Value::Int(a) => Value::Int(*a),
            Value::Text(a) => Value::Text(a.clone()),
        }
    }
}

/// A copy of a reading.
pub fn copy_reading(r: &Reading) -> (c: Reading)
    ensures
        c == *r,
{
    match r {
        None => None,
        Some(Ok(v)) => Some(Ok(v.duplicate())),
        Some(Err(e)) => Some(Err(*e)),
    }
}

/// Decides [`same_value`] for two readings.
pub fn readings_agree(a: &Reading, b: &Reading) -> (r: bool)
    ensures
        r == same_value(reading_model(*a), reading_model(*b)),
{
    match (a, b) {
        (Some(Ok(x)), Some(Ok(y))) => x.same(y),
        _ => false,
    }
}

/// Whether `h` occurs in `list`.
pub fn holds_handle(list: &Vec<Handle>, h: Handle) -> (r: bool)
    ensures
        r == list@.contains(h),
{
    let mut i: usize = 0;
    while i < list.len()
        invariant
            i <= list.len(),
            forall|k: int| 0 <= k < i ==> list@[k] != h,
        decreases list.len() - i,
    {
        if list[i] == h {
            return true;
        }
        i += 1;
    }
    false
}

} // verus!
