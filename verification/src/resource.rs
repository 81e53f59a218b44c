//! Resources: nodes whose value comes from an asynchronous operation.
//!
//! The graph never runs an operation. It says which to start, each stamped
//! with the resource's generation, and is told when one has ended. Only the
//! result of the operation started last counts: a result that carries an
//! older stamp is dropped, and changes nothing.

use vstd::prelude::*;
use crate::derivation::Derivation;
use crate::graph::{
    coherent_at, grounded, lemma_coherent_agrees, lemma_heeded_kept, outcome, quiet, sound, unmet,
    wants, within, Graph, GraphSpec, Launch, LaunchSpec, NodeSpec, Role,
};
use crate::progress::lemma_shape_kept;
use crate::invalidate::{invalidated, lemma_invalidated_sound, lemma_reach_first};
use crate::value::{Fault, FaultSpec, NodeId, Status, StatusSpec, Value, ValueSpec};

verus! {

/// How an operation ended: with a value, or with the message of its failure.
pub open spec fn ending(result: Result<Value, String>) -> Result<ValueSpec, Seq<char>> {
    match result {
        Ok(v) => Ok(v@),
        Err(m) => Err(m@),
    }
}

/// The resource waits for the operation that carries `generation`.
pub open spec fn awaits<D>(node: NodeSpec<D>, generation: u64) -> bool {
    node.status is Pending && node.generation == generation
}

/// The nodes after the operation that resource `r` waited for has ended:
/// the resource is ready with the value, which it keeps as its last, or has
/// failed with the message; it is touched, and what depends on it is dirty.
pub open spec fn completed<D>(
    s: Seq<NodeSpec<D>>,
    r: int,
    result: Result<ValueSpec, Seq<char>>,
) -> Seq<NodeSpec<D>> {
    let m = invalidated(s, r);
    m.update(
        r,
        match result {
            Ok(v) => NodeSpec { status: StatusSpec::Ready(v), last: Some(v), touched: true, ..m[r] },
            Err(message) => NodeSpec {
                status: StatusSpec::Errored(FaultSpec::Rejected(message)),
                touched: true,
                ..m[r]
            },
        },
    )
}

/// The views of a list of launches, in order.
pub open spec fn launches(list: Seq<Launch>) -> Seq<LaunchSpec> {
    Seq::new(list.len(), |i: int| list[i]@)
}

/// After invalidation from node `c`, the status of `c` may change: no clean
/// node reads it any more.
pub proof fn lemma_changed_sound<D: Derivation>(s: Seq<NodeSpec<D>>, c: int, t: Seq<NodeSpec<D>>)
    requires
        sound(s),
        quiet(s),
        0 <= c < s.len(),
        t.len() == s.len(),
        forall|k: int| 0 <= k < s.len() && k != c ==> #[trigger] t[k] == invalidated(s, c)[k],
        t[c] == (NodeSpec {
            status: t[c].status,
            last: t[c].last,
            touched: t[c].touched,
            ..invalidated(s, c)[c]
        }),
        coherent_at(t, c),
        forall|id: NodeId| !#[trigger] wants(t[c], id),
    ensures
        sound(t),
        quiet(t),
{
    let m = invalidated(s, c);
    lemma_invalidated_sound(s, c);
    lemma_shape_kept(m, t);
    assert(unmet(t)) by {
        assert forall|k: int, id: NodeId|
            0 <= k < t.len() && t[k].phase is Clean && #[trigger] wants(t[k], id) implies id
            >= t.len() by {
            assert(wants(m[k], id));
        }
    }
    assert(grounded(t)) by {
        assert forall|n: int, d: NodeId|
            0 <= n < t.len() && t[n].phase is Clean && #[trigger] t[n].deps.contains(
                d,
            ) implies t[d as int].phase is Clean by {
            assert(m[n].deps.contains(d));
            assert(within(m[n].deps, m.len()));
        }
    }
    assert forall|n: int| 0 <= n < t.len() implies #[trigger] coherent_at(t, n) by {
        assert(coherent_at(m, n));
        if n != c {
            if t[n].phase is Clean {
                assert forall|d: NodeId| #[trigger] m[n].deps.contains(d) implies outcome(m[d as int])
                    == outcome(t[d as int]) by {
                    assert(within(m[n].deps, m.len()));
                    if d == c {
                        assert(s[n as NodeId as int].deps.contains(d) <==> s[d as int].subs.contains(
                            n as NodeId,
                        ));
                        lemma_reach_first(s, c as NodeId, n as NodeId);
                    }
                }
            }
            lemma_coherent_agrees(m, t, n);
        }
    }
    assert forall|n: int| 0 <= n < t.len() implies !((#[trigger] t[n]).phase is Running) by {
        assert(!(m[n].phase is Running));
    }
}

impl<D: Derivation> Graph<D> {
    /// Whether node `id` is a resource.
    pub fn is_resource(&self, id: NodeId) -> (r: bool)
        ensures
            r == (id < self@.nodes.len() && self@.nodes[id as int].role is Resource),
    {
        if id < self.nodes.len() {
            match &self.nodes[id].role {
                Role::Resource(_) => true,
                _ => false,
            }
        } else {
            false
        }
    }

    /// Takes in the end of an operation of `resource` that was started under
    /// `generation`. It counts only if the resource is pending under that very
    /// generation: then the resource is ready or has failed, and whatever
    /// depends on it is dirty. Otherwise the result is stale and is dropped
    /// without any change. Says whether the result counted.
    pub fn complete(
        &mut self,
        resource: NodeId,
        generation: u64,
        result: Result<Value, String>,
    ) -> (accepted: bool)
        requires
            old(self).wf(),
            resource < old(self)@.nodes.len(),
            old(self)@.nodes[resource as int].role is Resource,
        ensures
            final(self).wf(),
            accepted == awaits(old(self)@.nodes[resource as int], generation),
            final(self)@ == if accepted {
                GraphSpec {
                    nodes: completed(old(self)@.nodes, resource as int, ending(result)),
                    ..old(self)@
                }
            } else {
                old(self)@
            },
    {
        let pending = match &self.nodes[resource].status {
            Status::Pending => true,
            _ => false,
        };
        if !pending || self.nodes[resource].generation != generation {
            return false;
        }
        let ghost s = self@.nodes;
        let ghost want = completed(s, resource as int, ending(result));
        self.mark(resource);
        let ghost mid = self@;
        match result {
            Ok(v) => {
                self.nodes[resource].last = Some(v.clone());
                self.nodes[resource].status = Status::Ready(v);
            },
            Err(message) => {
                self.nodes[resource].status = Status::Errored(Fault::Rejected(message));
            },
        }
        self.nodes[resource].touched = true;
        proof {
            assert(self@.nodes =~= want);
            assert(self@.boundaries =~= mid.boundaries);
            assert(self@.outbox =~= mid.outbox);
            assert(coherent_at(s, resource as int));
            let t = s[resource as int].role->Resource_0;
            assert(coherent_at(want, resource as int)) by {
                if want[resource as int].phase is Clean {
                    assert(s[resource as int].phase is Clean);
                    assert(want[t as int] == invalidated(s, resource as int)[t as int]);
                    assert(outcome(want[t as int]) == outcome(s[t as int]));
                }
            }
            lemma_changed_sound(s, resource as int, want);
            lemma_heeded_kept(old(self)@, self@);
        }
        true
    }

    /// Hands out the operations that wait to be started, oldest first, and
    /// forgets them.
    pub fn take_launches(&mut self) -> (list: Vec<Launch>)
        requires
            old(self).wf(),
        ensures
            final(self).wf(),
            launches(list@) == old(self)@.outbox,
            final(self)@ == (GraphSpec { outbox: Seq::empty(), ..old(self)@ }),
    {
        let mut list: Vec<Launch> = Vec::new();
        core::mem::swap(&mut self.outbox, &mut list);
        proof {
            assert(launches(list@) =~= old(self)@.outbox);
            assert(self@.outbox =~= Seq::empty());
            assert(self@.boundaries =~= old(self)@.boundaries);
            lemma_heeded_kept(old(self)@, self@);
        }
        list
    }
}

} // verus!
