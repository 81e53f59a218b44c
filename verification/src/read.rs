//! Reading nodes: the pull side of the graph.

use vstd::prelude::*;
use crate::cycle::{cyclic, lemma_trapped_is_cyclic};
use crate::derivation::Derivation;
use crate::progress::{advanced, lemma_advanced_count, logged, needed, steady};
use crate::graph::{layered, lemma_layered_same};
use crate::meaning::{lemma_clean_is_meant, meaning};
use crate::graph::{outcome, quiet, scoped, within, Graph, GraphSpec};
use crate::tracker::FrameSpec;
use crate::value::{copy_of, view_of, Fault, FaultSpec, NodeId, Status, Value, ValueSpec};

verus! {

/// The open scopes after node `id` was read: the innermost one holds it.
pub open spec fn noted(frames: Seq<FrameSpec>, id: NodeId) -> Seq<FrameSpec> {
    if frames.len() > 0 && !frames.last().reads.contains(id) {
        frames.update(
            frames.len() - 1,
            FrameSpec { owner: frames.last().owner, reads: frames.last().reads.push(id) },
        )
    } else {
        frames
    }
}

/// Recording a read of a node of the graph keeps the scopes well formed.
pub proof fn lemma_noted_scoped(frames: Seq<FrameSpec>, id: NodeId, nodes: nat, boundaries: nat)
    requires
        scoped(frames, nodes, boundaries),
        id < nodes,
    ensures
        scoped(noted(frames, id), nodes, boundaries),
{
    let after = noted(frames, id);
    if frames.len() > 0 && !frames.last().reads.contains(id) {
        let top = frames.last().reads;
        assert(top.no_duplicates());
        assert(top.push(id).no_duplicates());
        assert forall|x: NodeId| #[trigger] top.push(id).contains(x) implies x < nodes by {
            let j = choose|j: int| 0 <= j < top.push(id).len() && top.push(id)[j] == x;
            if j < top.len() {
                assert(top[j] == x);
                assert(top.contains(x));
            }
        }
        assert forall|i: int| 0 <= i < after.len() implies {
            &&& (#[trigger] after[i]).reads.no_duplicates()
            &&& within(after[i].reads, nodes)
            &&& after[i].owner is Boundary
            &&& after[i].owner->Boundary_0 < boundaries
        } by {
            if i < frames.len() - 1 {
                assert(after[i] == frames[i]);
            }
        }
    }
}

impl<D: Derivation> Graph<D> {
    /// Reads node `id`: brings it up to date if it is dirty, records the
    /// read in the innermost open scope, and hands out its value or fault.
    ///
    /// A cell yields its value. A computation yields what its derivation
    /// makes of the present values of the nodes it reads, or the fault it
    /// ended in. A resource yields its value if it is ready, the value it
    /// was last ready with (or nothing) while it is pending, and its fault if
    /// it failed; its first read starts its first operation. Only what the
    /// node needs is evaluated. An evaluation that runs into a cycle is
    /// abandoned: the node stays dirty, and the fault names a node of the
    /// cycle.
    pub fn read(&mut self, id: NodeId) -> (r: Result<Value, Fault>)
        requires
            old(self).wf(),
            id < old(self)@.nodes.len(),
        ensures
            final(self).wf(),
            advanced(
                GraphSpec { journal: Seq::empty(), ..old(self)@ },
                GraphSpec { frames: old(self)@.frames, ..final(self)@ },
            ),
            logged(final(self)@.nodes, final(self)@.journal),
            final(self)@.nodes[id as int].phase is Clean ==> needed(
                final(self)@.nodes,
                final(self)@.journal,
                0,
                set![id],
            ),
            final(self)@.frames == noted(old(self)@.frames, id),
            match r {
                Ok(v) => final(self)@.nodes[id as int].phase is Clean && outcome(
                    final(self)@.nodes[id as int],
                ) == Ok::<ValueSpec, FaultSpec>(v@),
                Err(f) => if final(self)@.nodes[id as int].phase is Clean {
                    outcome(final(self)@.nodes[id as int]) == Err::<ValueSpec, FaultSpec>(f@)
                } else {
                    f@ is Cyclic && cyclic(final(self)@.nodes, id, f@->Cyclic_0)
                },
            },
            layered(old(self)@.nodes) ==> final(self)@.nodes[id as int].phase is Clean
                && final(self)@.nodes[id as int].status == meaning(final(self)@.nodes, id as int),
    {
        self.journal.clear();
        let ghost start = self@;
        proof {
            assert(start.boundaries =~= old(self)@.boundaries);
            assert(start.outbox =~= old(self)@.outbox);
            assert(start == (GraphSpec { journal: Seq::empty(), ..old(self)@ }));
            crate::graph::lemma_heeded_kept(old(self)@, start);
            assert(steady(start));
        }
        let settled = self.demand(id);
        let ghost mid = self@;
        self.tracker.record(id);
        proof {
            assert(self@ == (GraphSpec { frames: noted(old(self)@.frames, id), ..mid }));
            crate::graph::lemma_heeded_kept(mid, self@);
            lemma_advanced_count(start, mid);
            lemma_noted_scoped(
                old(self)@.frames,
                id,
                old(self)@.nodes.len(),
                old(self)@.boundaries.len(),
            );
            if layered(old(self)@.nodes) {
                lemma_layered_same(old(self)@.nodes, start.nodes);
                lemma_clean_is_meant(mid.nodes, id as int);
            }
            assert(quiet(self@.nodes)) by {
                assert forall|n: int| 0 <= n < self@.nodes.len() implies !((
                #[trigger] self@.nodes[n]).phase is Running) by {
                    assert(!(start.nodes[n].phase is Running));
                }
            }
        }
        match settled {
            Ok(()) => self.outcome_of(id),
            Err(fault) => {
                proof {
                    lemma_trapped_is_cyclic(self@.nodes, id, fault@->Cyclic_0);
                }
                Err(fault)
            },
        }
    }

    /// The status of node `id` as it stands, without evaluating or
    /// recording anything.
    pub fn status(&self, id: NodeId) -> (s: Status)
        requires
            id < self@.nodes.len(),
        ensures
            s@ == self@.nodes[id as int].status,
    {
        self.nodes[id].status.clone()
    }

    /// The value that resource `id` was last ready with, if it ever was.
    pub fn value(&self, id: NodeId) -> (v: Option<Value>)
        requires
            id < self@.nodes.len(),
        ensures
            view_of(v) == self@.nodes[id as int].last,
    {
        copy_of(&self.nodes[id].last)
    }

    /// The generation of resource `id`: the stamp of the operation that it
    /// started last.
    pub fn generation(&self, id: NodeId) -> (g: u64)
        requires
            id < self@.nodes.len(),
        ensures
            g == self@.nodes[id as int].generation,
    {
        self.nodes[id].generation
    }

    /// Whether node `id` is dirty: not known to agree with what it depends on.
    pub fn is_dirty(&self, id: NodeId) -> (d: bool)
        requires
            id < self@.nodes.len(),
        ensures
            d == !(self@.nodes[id as int].phase is Clean),
    {
        match self.nodes[id].phase {
            crate::graph::Phase::Clean => false,
            _ => true,
        }
    }

    /// The nodes that node `id` read in its last evaluation, in reading order.
    pub fn dependencies(&self, id: NodeId) -> (list: Vec<NodeId>)
        requires
            id < self@.nodes.len(),
        ensures
            list@ == self@.nodes[id as int].deps,
    {
        copy_ids(&self.nodes[id].deps)
    }

    /// The nodes evaluated by the last read or pass, in the order in which
    /// they were settled.
    pub fn journal(&self) -> (list: Vec<NodeId>)
        ensures
            list@ == self@.journal,
    {
        copy_ids(&self.journal)
    }
}

/// A copy of a list of nodes.
pub fn copy_ids(list: &Vec<NodeId>) -> (copy: Vec<NodeId>)
    ensures
        copy@ == list@,
{
    let mut copy: Vec<NodeId> = Vec::new();
    let mut i: usize = 0;
    while i < list.len()
        invariant
            i <= list@.len(),
            copy@ == list@.subrange(0, i as int),
        decreases list@.len() - i,
    {
        copy.push(list[i]);
        i += 1;
        assert(copy@ =~= list@.subrange(0, i as int));
    }
    assert(list@.subrange(0, i as int) =~= list@);
    copy
}

} // verus!
