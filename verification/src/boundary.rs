//! Boundaries: what is pending and what has failed among the nodes read in
//! a scope, summed up to choose between content and fallback.

use vstd::prelude::*;
use crate::derivation::Derivation;
use crate::graph::{within, Boundary, BoundaryKind, BoundarySpec, Graph, GraphSpec, NodeSpec};
use crate::tracker::{FrameSpec, Owner};
use crate::value::{Fault, FaultSpec, NodeId, Status};

verus! {

/// The fault of one node, under the node's name.
#[derive(Debug, PartialEq, Eq)]
pub struct Failure {
    pub node: NodeId,
    pub fault: Fault,
}

/// The mathematical content of a [`Failure`].
pub ghost struct FailureSpec {
    pub node: NodeId,
    pub fault: FaultSpec,
}

impl View for Failure {
    type V = FailureSpec;

    open spec fn view(&self) -> FailureSpec {
        FailureSpec { node: self.node, fault: self.fault@ }
    }
}

/// The combined status of the nodes that a boundary observes.
#[derive(Debug, PartialEq, Eq)]
pub enum Aggregate {
    /// A node is pending.
    Pending,
    /// No node is pending and these have failed.
    Errored(Vec<Failure>),
    /// No node is pending and none has failed.
    Ready,
}

/// The mathematical content of an [`Aggregate`].
pub ghost enum AggregateSpec {
    Pending,
    Errored(Seq<FailureSpec>),
    Ready,
}

/// The views of a list of failures, in order.
pub open spec fn failures_view(list: Seq<Failure>) -> Seq<FailureSpec> {
    Seq::new(list.len(), |i: int| list[i]@)
}

impl View for Aggregate {
    type V = AggregateSpec;

    open spec fn view(&self) -> AggregateSpec {
        match self {
            Aggregate::Pending => AggregateSpec::Pending,
            Aggregate::Errored(list) => AggregateSpec::Errored(failures_view(list@)),
            Aggregate::Ready => AggregateSpec::Ready,
        }
    }
}

/// One of the first `k` observed nodes is pending.
pub open spec fn pending_among<D>(nodes: Seq<NodeSpec<D>>, observed: Seq<NodeId>, k: int) -> bool {
    exists|i: int| 0 <= i < k && (#[trigger] nodes[observed[i] as int]).status is Pending
}

/// The faults of the first `k` observed nodes, one for each node that has
/// failed, in the order in which the nodes were first read.
pub open spec fn failures<D>(nodes: Seq<NodeSpec<D>>, observed: Seq<NodeId>, k: int) -> Seq<
    FailureSpec,
>
    decreases k,
{
    if k <= 0 {
        Seq::empty()
    } else if nodes[observed[k - 1] as int].status is Errored {
        failures(nodes, observed, k - 1).push(
            FailureSpec {
                node: observed[k - 1],
                fault: nodes[observed[k - 1] as int].status->Errored_0,
            },
        )
    } else {
        failures(nodes, observed, k - 1)
    }
}

/// The combined status of the observed nodes: pending if any of them is;
/// else failed, with the faults, if any of them has failed; else ready.
pub open spec fn aggregate<D>(nodes: Seq<NodeSpec<D>>, observed: Seq<NodeId>) -> AggregateSpec {
    if pending_among(nodes, observed, observed.len() as int) {
        AggregateSpec::Pending
    } else if failures(nodes, observed, observed.len() as int).len() > 0 {
        AggregateSpec::Errored(failures(nodes, observed, observed.len() as int))
    } else {
        AggregateSpec::Ready
    }
}

/// Whether a boundary of this kind shows its fallback: a suspense boundary
/// while an observed node is pending, an error boundary while one has failed.
pub open spec fn falls_back<D>(
    kind: BoundaryKind,
    nodes: Seq<NodeSpec<D>>,
    observed: Seq<NodeId>,
) -> bool {
    match kind {
        BoundaryKind::Suspense => pending_among(nodes, observed, observed.len() as int),
        BoundaryKind::ErrorBoundary => failures(nodes, observed, observed.len() as int).len() > 0,
    }
}

/// What one walk over the observed nodes finds.
struct Tally {
    pending: bool,
    failed: Vec<Failure>,
}

impl<D: Derivation> Graph<D> {
    /// Registers a change callback on node `node` and gives its number. The
    /// pass after a change to the node names the callback, once.
    pub fn on_change(&mut self, node: NodeId) -> (callback: usize)
        requires
            old(self).wf(),
            node < old(self)@.nodes.len(),
        ensures
            final(self).wf(),
            callback == old(self)@.watchers.len(),
            final(self)@ == (GraphSpec { watchers: old(self)@.watchers.push(node), ..old(self)@ }),
    {
        let callback: usize = self.watchers.len();
        self.watchers.push(node);
        proof {
            assert(self@.boundaries =~= old(self)@.boundaries);
            assert(self@.outbox =~= old(self)@.outbox);
            assert forall|x: NodeId| #[trigger] self@.watchers.contains(x) implies x
                < self@.nodes.len() by {
                let j = choose|j: int| 0 <= j < self@.watchers.len() && self@.watchers[j] == x;
                if j < old(self)@.watchers.len() {
                    assert(old(self)@.watchers[j] == x);
                    assert(old(self)@.watchers.contains(x));
                }
            }
        }
        callback
    }

    /// How many boundaries the graph holds.
    pub fn boundary_count(&self) -> (n: usize)
        ensures
            n == self@.boundaries.len(),
    {
        self.boundaries.len()
    }

    /// Creates a boundary of this kind and opens its scope: until the scope
    /// is closed, the boundary observes every node that is read, but for
    /// reads made inside evaluations or inner scopes.
    pub fn open_boundary(&mut self, kind: BoundaryKind) -> (boundary: usize)
        requires
            old(self).wf(),
        ensures
            final(self).wf(),
            boundary == old(self)@.boundaries.len(),
            final(self)@ == (GraphSpec {
                boundaries: old(self)@.boundaries.push(BoundarySpec { kind, observed: Seq::empty() }),
                frames: old(self)@.frames.push(
                    FrameSpec { owner: Owner::Boundary(boundary), reads: Seq::empty() },
                ),
                ..old(self)@
            }),
    {
        let boundary: usize = self.boundaries.len();
        self.boundaries.push(Boundary { kind, observed: Vec::new() });
        self.tracker.push(Owner::Boundary(boundary));
        proof {
            assert(self@.boundaries =~= old(self)@.boundaries.push(
                BoundarySpec { kind, observed: Seq::empty() },
            ));
            assert(self@.outbox =~= old(self)@.outbox);
            let before = old(self)@.frames;
            let after = self@.frames;
            assert forall|i: int| 0 <= i < after.len() implies {
                &&& (#[trigger] after[i]).reads.no_duplicates()
                &&& within(after[i].reads, self@.nodes.len())
                &&& after[i].owner is Boundary
                &&& after[i].owner->Boundary_0 < self@.boundaries.len()
            } by {
                if i < before.len() {
                    assert(after[i] == before[i]);
                }
            }
            assert forall|b: int| 0 <= b < self@.boundaries.len() implies within(
                (#[trigger] self@.boundaries[b]).observed,
                self@.nodes.len(),
            ) by {
                if b < old(self)@.boundaries.len() {
                    assert(self@.boundaries[b] == old(self)@.boundaries[b]);
                }
            }
        }
        boundary
    }

    /// Closes the innermost open scope: its boundary observes from now on
    /// exactly the nodes that were read in the scope. Gives the boundary, or
    /// nothing if no scope is open.
    pub fn close_boundary(&mut self) -> (boundary: Option<usize>)
        requires
            old(self).wf(),
        ensures
            final(self).wf(),
            old(self)@.frames.len() == 0 ==> boundary is None && final(self)@ == old(self)@,
            old(self)@.frames.len() > 0 ==> {
                let top = old(self)@.frames.last();
                &&& boundary == Some(top.owner->Boundary_0)
                &&& final(self)@ == (GraphSpec {
                    frames: old(self)@.frames.drop_last(),
                    boundaries: old(self)@.boundaries.update(
                        top.owner->Boundary_0 as int,
                        BoundarySpec {
                            kind: old(self)@.boundaries[top.owner->Boundary_0 as int].kind,
                            observed: top.reads,
                        },
                    ),
                    ..old(self)@
                })
            },
    {
        let frame = self.tracker.pop();
        match frame {
            None => {
                proof {
                    assert(self@.boundaries =~= old(self)@.boundaries);
                    assert(self@.outbox =~= old(self)@.outbox);
                }
                None
            },
            Some(frame) => {
                let ghost top = old(self)@.frames.last();
                assert(frame@ == top);
                assert(old(self)@.frames[old(self)@.frames.len() - 1] == top);
                match frame.owner {
                    Owner::Boundary(b) => {
                        self.boundaries[b].observed = frame.reads;
                        proof {
                            assert(self@.boundaries =~= old(self)@.boundaries.update(
                                b as int,
                                BoundarySpec {
                                    kind: old(self)@.boundaries[b as int].kind,
                                    observed: top.reads,
                                },
                            ));
                            assert(self@.outbox =~= old(self)@.outbox);
                            let before = old(self)@.frames;
                            let after = self@.frames;
                            assert forall|i: int| 0 <= i < after.len() implies {
                                &&& (#[trigger] after[i]).reads.no_duplicates()
                                &&& within(after[i].reads, self@.nodes.len())
                                &&& after[i].owner is Boundary
                                &&& after[i].owner->Boundary_0 < self@.boundaries.len()
                            } by {
                                assert(after[i] == before[i]);
                            }
                            assert forall|k: int| 0 <= k < self@.boundaries.len() implies within(
                                (#[trigger] self@.boundaries[k]).observed,
                                self@.nodes.len(),
                            ) by {
                                if k != b {
                                    assert(self@.boundaries[k] == old(self)@.boundaries[k]);
                                }
                            }
                        }
                        Some(b)
                    },
                    Owner::Node(_) => None,
                }
            },
        }
    }

    /// Walks over the nodes that boundary `b` observes.
    fn tally(&self, b: usize) -> (t: Tally)
        requires
            self.wf(),
            b < self@.boundaries.len(),
        ensures
            t.pending == pending_among(
                self@.nodes,
                self@.boundaries[b as int].observed,
                self@.boundaries[b as int].observed.len() as int,
            ),
            failures_view(t.failed@) == failures(
                self@.nodes,
                self@.boundaries[b as int].observed,
                self@.boundaries[b as int].observed.len() as int,
            ),
    {
        let ghost observed = self@.boundaries[b as int].observed;
        let ghost nodes = self@.nodes;
        assert(within(observed, nodes.len()));
        let mut pending = false;
        let mut failed: Vec<Failure> = Vec::new();
        let mut i: usize = 0;
        while i < self.boundaries[b].observed.len()
            invariant
                b < self.boundaries@.len(),
                observed == self.boundaries@[b as int].observed@,
                nodes == self@.nodes,
                within(observed, nodes.len()),
                i <= observed.len(),
                pending == pending_among(nodes, observed, i as int),
                failures_view(failed@) == failures(nodes, observed, i as int),
            decreases observed.len() - i,
        {
            let x: NodeId = self.boundaries[b].observed[i];
            assert(observed.contains(x));
            let ghost was = pending;
            let ghost had = failures_view(failed@);
            match &self.nodes[x].status {
                Status::Pending => {
                    pending = true;
                },
                Status::Errored(fault) => {
                    failed.push(Failure { node: x, fault: fault.clone() });
                },
                _ => {},
            }
            i += 1;
            proof {
                assert(nodes[x as int].status == self.nodes@[x as int].status@);
                if nodes[x as int].status is Errored {
                    assert(failures_view(failed@) =~= had.push(
                        FailureSpec { node: x, fault: nodes[x as int].status->Errored_0 },
                    ));
                } else {
                    assert(failures_view(failed@) =~= had);
                }
                if pending_among(nodes, observed, i as int) {
                    let j = choose|j: int|
                        0 <= j < i && (#[trigger] nodes[observed[j] as int]).status is Pending;
                    if j < i - 1 {
                        assert(pending_among(nodes, observed, i - 1));
                    }
                }
                if was {
                    let j = choose|j: int|
                        0 <= j < i - 1 && (#[trigger] nodes[observed[j] as int]).status is Pending;
                    assert(0 <= j < i && nodes[observed[j] as int].status is Pending);
                }
                if nodes[x as int].status is Pending {
                    assert(nodes[observed[i - 1] as int].status is Pending);
                }
            }
        }
        Tally { pending, failed }
    }

    /// The combined status of what boundary `b` observes, as the nodes
    /// stand: pending if any node is pending; else failed, with one fault for
    /// each node that has failed, if any has; else ready.
    pub fn boundary_status(&self, b: usize) -> (status: Aggregate)
        requires
            self.wf(),
            b < self@.boundaries.len(),
        ensures
            status@ == aggregate(self@.nodes, self@.boundaries[b as int].observed),
    {
        let tally = self.tally(b);
        if tally.pending {
            Aggregate::Pending
        } else if tally.failed.len() > 0 {
            Aggregate::Errored(tally.failed)
        } else {
            Aggregate::Ready
        }
    }

    /// Whether boundary `b` shows its fallback in place of its content.
    pub fn shows_fallback(&self, b: usize) -> (fallback: bool)
        requires
            self.wf(),
            b < self@.boundaries.len(),
        ensures
            fallback == falls_back(
                self@.boundaries[b as int].kind,
                self@.nodes,
                self@.boundaries[b as int].observed,
            ),
    {
        let tally = self.tally(b);
        match self.boundaries[b].kind {
            BoundaryKind::Suspense => tally.pending,
            BoundaryKind::ErrorBoundary => tally.failed.len() > 0,
        }
    }

    /// The nodes that boundary `b` observes, in the order of first reading.
    pub fn observed(&self, b: usize) -> (list: Vec<NodeId>)
        requires
            b < self@.boundaries.len(),
        ensures
            list@ == self@.boundaries[b as int].observed,
    {
        crate::read::copy_ids(&self.boundaries[b].observed)
    }
}

} // verus!
