//! Values, faults and node statuses, each with its mathematical view.

use vstd::prelude::*;

verus! {

/// Names a node of the graph: its position in creation order.
pub type NodeId = usize;

/// A value that a node can hold.
#[derive(Debug, PartialEq, Eq)]
pub enum Value {
    /// No value: what an unresolved resource yields.
    Nothing,
    Flag(bool),
    Int(i64),
    Text(String),
}

/// The mathematical content of a [`Value`].
pub ghost enum ValueSpec {
    Nothing,
    Flag(bool),
    Int(i64),
    Text(Seq<char>),
}

impl View for Value {
    type V = ValueSpec;

    open spec fn view(&self) -> ValueSpec {
        match self {
            Value::Nothing => ValueSpec::Nothing,
            Value::Flag(b) => ValueSpec::Flag(*b),
            Value::Int(i) => ValueSpec::Int(*i),
            Value::Text(s) => ValueSpec::Text(s@),
        }
    }
}

impl Clone for Value {
    fn clone(&self) -> (r: Self)
        ensures
            r@ == self@,
    {
        match self {
            Value::Nothing => Value::Nothing,
            Value::Flag(b) => Value::Flag(*b),
            Value::Int(i) => Value::Int(*i),
            Value::Text(s) => Value::Text(s.clone()),
        }
    }
}

impl Value {
    /// Whether two values have the same content.
    pub fn same(&self, other: &Value) -> (r: bool)
        ensures
            r == (self@ == other@),
    {
        match (self, other) {
            (Value::Nothing, Value::Nothing) => true,
            (Value::Flag(a), Value::Flag(b)) => *a == *b,
            (Value::Int(a), Value::Int(b)) => *a == *b,
            (Value::Text(a), Value::Text(b)) => *a == *b,
            _ => false,
        }
    }
}

/// The views of a sequence of values, in order.
pub open spec fn views(values: Seq<Value>) -> Seq<ValueSpec> {
    Seq::new(values.len(), |i: int| values[i]@)
}

/// The view of an optional value.
pub open spec fn view_of(value: Option<Value>) -> Option<ValueSpec> {
    match value {
        Some(v) => Some(v@),
        None => None,
    }
}

/// Copies a value that may be absent.
pub fn copy_of(value: &Option<Value>) -> (r: Option<Value>)
    ensures
        view_of(r) == view_of(*value),
{
    match value {
        Some(v) => Some(v.clone()),
        None => None,
    }
}

/// The three classes of error.
#[derive(Debug, Clone, Copy, PartialEq, Eq, Structural)]
pub enum ErrorKind {
    /// A derivation raised.
    Evaluation,
    /// An asynchronous operation failed.
    AsyncOperation,
    /// The dependency graph holds a cycle.
    CyclicDependency,
}

/// What went wrong at a node.
#[derive(Debug, PartialEq, Eq)]
pub enum Fault {
    /// The derivation gave up, with its message.
    Raised(String),
    /// The derivation asked for a node that did not exist. When a node of
    /// that name is created, whatever failed so is evaluated anew.
    UnknownNode(NodeId),
    /// The derivation asked for a node whose value it had already been given.
    RepeatedRead(NodeId),
    /// The asynchronous operation was rejected, with its message.
    Rejected(String),
    /// The resource has no generation left to stamp a new operation with.
    Exhausted,
    /// Evaluation came back to this node while it was still being
    /// evaluated. Unlike the others, this fault is not kept in any node: it
    /// ends the read or the pass that met it.
    Cyclic(NodeId),
}

/// The mathematical content of a [`Fault`].
pub ghost enum FaultSpec {
    Raised(Seq<char>),
    UnknownNode(NodeId),
    RepeatedRead(NodeId),
    Rejected(Seq<char>),
    Exhausted,
    Cyclic(NodeId),
}

impl View for Fault {
    type V = FaultSpec;

    open spec fn view(&self) -> FaultSpec {
        match self {
            Fault::Raised(m) => FaultSpec::Raised(m@),
            Fault::UnknownNode(n) => FaultSpec::UnknownNode(*n),
            Fault::RepeatedRead(n) => FaultSpec::RepeatedRead(*n),
            Fault::Rejected(m) => FaultSpec::Rejected(m@),
            Fault::Exhausted => FaultSpec::Exhausted,
            Fault::Cyclic(n) => FaultSpec::Cyclic(*n),
        }
    }
}

impl Clone for Fault {
    fn clone(&self) -> (r: Self)
        ensures
            r@ == self@,
    {
        match self {
            Fault::Raised(m) => Fault::Raised(m.clone()),
            Fault::UnknownNode(n) => Fault::UnknownNode(*n),
            Fault::RepeatedRead(n) => Fault::RepeatedRead(*n),
            Fault::Rejected(m) => Fault::Rejected(m.clone()),
            Fault::Exhausted => Fault::Exhausted,
            Fault::Cyclic(n) => Fault::Cyclic(*n),
        }
    }
}

impl FaultSpec {
    /// The class that a fault belongs to.
    pub open spec fn kind(self) -> ErrorKind {
        match self {
            FaultSpec::Raised(_) | FaultSpec::UnknownNode(_) | FaultSpec::RepeatedRead(_) => {
                ErrorKind::Evaluation
            },
            FaultSpec::Rejected(_) | FaultSpec::Exhausted => ErrorKind::AsyncOperation,
            FaultSpec::Cyclic(_) => ErrorKind::CyclicDependency,
        }
    }
}

impl Fault {
    /// The class that this fault belongs to.
    pub fn kind(&self) -> (k: ErrorKind)
        ensures
            k == self@.kind(),
    {
        match self {
            Fault::Raised(_) | Fault::UnknownNode(_) | Fault::RepeatedRead(_) => {
                ErrorKind::Evaluation
            },
            Fault::Rejected(_) | Fault::Exhausted => ErrorKind::AsyncOperation,
            Fault::Cyclic(_) => ErrorKind::CyclicDependency,
        }
    }
}

/// Where a node stands: not yet asked, waiting, settled on a value, or failed.
#[derive(Debug, PartialEq, Eq)]
pub enum Status {
    Idle,
    Pending,
    Ready(Value),
    Errored(Fault),
}

/// The mathematical content of a [`Status`].
pub ghost enum StatusSpec {
    Idle,
    Pending,
    Ready(ValueSpec),
    Errored(FaultSpec),
}

impl View for Status {
    type V = StatusSpec;

    open spec fn view(&self) -> StatusSpec {
        match self {
            Status::Idle => StatusSpec::Idle,
            Status::Pending => StatusSpec::Pending,
            Status::Ready(v) => StatusSpec::Ready(v@),
            Status::Errored(f) => StatusSpec::Errored(f@),
        }
    }
}

impl Clone for Status {
    fn clone(&self) -> (r: Self)
        ensures
            r@ == self@,
    {
        match self {
            Status::Idle => Status::Idle,
            Status::Pending => Status::Pending,
            Status::Ready(v) => Status::Ready(v.clone()),
            Status::Errored(f) => Status::Errored(f.clone()),
        }
    }
}

} // verus!
