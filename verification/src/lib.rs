//! A fine-grained reactive state-propagation core.
//!
//! State lives in a dependency graph of cells, memoized computations and
//! asynchronous resources. Writes mark what depends on them as stale, and one
//! pass brings all of it up to date in dependency order; boundaries sum up
//! what is pending or has failed below them.

pub mod boundary;
pub mod cycle;
pub mod demo;
pub mod derivation;
pub mod evaluate;
pub mod graph;
pub mod invalidate;
pub mod laws;
pub mod meaning;
pub mod progress;
pub mod read;
pub mod resource;
pub mod rewire;
pub mod schedule;
pub mod tracker;
pub mod value;
pub mod verdict;

pub use crate::boundary::{Aggregate, AggregateSpec, Failure, FailureSpec};
pub use crate::demo::{counter, important_api_call, Counter, Press};
pub use crate::derivation::{Derivation, Formula, Step, StepSpec};
pub use crate::graph::{
    Boundary, BoundaryKind, BoundarySpec, Graph, GraphSpec, Launch, LaunchSpec, Node, NodeSpec, Phase,
    Role,
};
pub use crate::schedule::Pass;
pub use crate::tracker::{Frame, FrameSpec, Owner, Tracker};
pub use crate::value::{ErrorKind, Fault, FaultSpec, NodeId, Status, StatusSpec, Value, ValueSpec};
