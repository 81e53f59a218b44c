//! What evaluation changes and what it keeps: the relation between the
//! graph before and after, and the lemmas about it.

use vstd::prelude::*;
use crate::derivation::Derivation;
use crate::graph::{
    coherent_at, grounded, heeded, layered, lemma_coherent_agrees, lemma_layered_same,
    lemma_unmet_kept, linked, outcome, shaped, sound, within, GraphSpec, LaunchSpec, NodeSpec,
    Phase, Role,
};
use crate::invalidate::{count_in, lemma_count_shrinks};
use crate::rewire::keeps;
use crate::tracker::tidy;
use crate::value::{FaultSpec, NodeId, StatusSpec, ValueSpec};

verus! {

/// The journal names clean nodes, each once, and none of them depends on
/// one that was entered after it.
pub open spec fn logged<D>(s: Seq<NodeSpec<D>>, journal: Seq<NodeId>) -> bool {
    &&& journal.no_duplicates()
    &&& forall|i: int|
        0 <= i < journal.len() ==> (#[trigger] journal[i]) < s.len()
            && s[journal[i] as int].phase is Clean
    &&& forall|i: int, j: int|
        0 <= i < j < journal.len() ==> !s[#[trigger] journal[i] as int].deps.contains(
            #[trigger] journal[j],
        )
}

/// Entry `j` of the journal comes after entry `i` and read it.
pub open spec fn feeds<D>(s: Seq<NodeSpec<D>>, journal: Seq<NodeId>, i: int, j: int) -> bool {
    i < j < journal.len() && s[journal[j] as int].deps.contains(journal[i])
}

/// No entry of the journal from `from` on is there for nothing: each is one
/// of `roots`, or was read by an entry after it.
pub open spec fn needed<D>(
    s: Seq<NodeSpec<D>>,
    journal: Seq<NodeId>,
    from: int,
    roots: Set<NodeId>,
) -> bool {
    forall|i: int|
        from <= i < journal.len() ==> roots.contains(#[trigger] journal[i]) || exists|j: int| #[trigger]
            feeds(s, journal, i, j)
}

/// What was needed stays needed when the journal grows by needed entries.
pub proof fn lemma_needed_extends<D>(
    s: Seq<NodeSpec<D>>,
    t: Seq<NodeSpec<D>>,
    shorter: Seq<NodeId>,
    longer: Seq<NodeId>,
    from: int,
    few: Set<NodeId>,
    many: Set<NodeId>,
)
    requires
        needed(s, shorter, from, few),
        0 <= from <= shorter.len(),
        shorter.is_prefix_of(longer),
        few.subset_of(many),
        forall|i: int| 0 <= i < shorter.len() ==> t[(#[trigger] shorter[i]) as int].deps == s[shorter[i] as int].deps,
        needed(t, longer, shorter.len() as int, many),
    ensures
        needed(t, longer, from, many),
{
    assert forall|i: int| from <= i < longer.len() implies many.contains(#[trigger] longer[i])
        || exists|j: int| #[trigger] feeds(t, longer, i, j) by {
        if i < shorter.len() {
            assert(longer[i] == shorter[i]);
            if !few.contains(shorter[i]) {
                let j = choose|j: int| #[trigger] feeds(s, shorter, i, j);
                assert(longer[j] == shorter[j]);
                assert(feeds(t, longer, i, j));
            }
        }
    }
}

/// Whether a resource in this state must start a new operation when its
/// trigger has the value `v`: it never started one, or started the last one
/// on another value.
pub open spec fn restarts<D>(node: NodeSpec<D>, v: ValueSpec) -> bool {
    node.status is Idle || node.launched != Some(v)
}

/// The state of a resource after it has looked at its trigger, whose
/// outcome is `out`. A failed trigger fails the resource. A trigger value
/// that calls for a new operation makes the resource pending under the next
/// generation, or fails it if no generation is left. Otherwise nothing
/// changes.
pub open spec fn refreshed<D>(node: NodeSpec<D>, out: Result<ValueSpec, FaultSpec>) -> NodeSpec<D> {
    match out {
        Err(f) => NodeSpec { status: StatusSpec::Errored(f), launched: None, ..node },
        Ok(v) => if restarts(node, v) {
            if node.generation == u64::MAX {
                NodeSpec {
                    status: StatusSpec::Errored(FaultSpec::Exhausted),
                    launched: Some(v),
                    ..node
                }
            } else {
                NodeSpec {
                    status: StatusSpec::Pending,
                    launched: Some(v),
                    generation: (node.generation + 1) as u64,
                    ..node
                }
            }
        } else {
            node
        },
    }
}

/// Node state `b` is what evaluating the dirty node state `a` left, in a
/// graph whose nodes are then `t`.
pub open spec fn settled_from<D>(a: NodeSpec<D>, b: NodeSpec<D>, t: Seq<NodeSpec<D>>) -> bool {
    &&& a.phase is Dirty
    &&& b.phase is Clean
    &&& b.role == a.role
    &&& b.touched == a.touched
    &&& b.last == a.last
    &&& match a.role {
        Role::Resource(trigger) => {
            let r = refreshed(a, outcome(t[trigger as int]));
            b.status == r.status && b.launched == r.launched && b.generation == r.generation
        },
        _ => b.launched == a.launched && b.generation == a.generation,
    }
}

/// The operation `launch` was started for a resource that went from dirty
/// in `a` to pending in `b`, with the resource's new generation and on the
/// trigger value it recorded.
pub open spec fn launch_of<D>(a: Seq<NodeSpec<D>>, b: Seq<NodeSpec<D>>, launch: LaunchSpec) -> bool {
    let r = launch.resource as int;
    &&& r < a.len()
    &&& a[r].phase is Dirty
    &&& b[r].phase is Clean
    &&& b[r].role is Resource
    &&& b[r].status is Pending
    &&& b[r].generation == a[r].generation + 1
    &&& launch.generation == b[r].generation
    &&& b[r].launched == Some(launch.input)
}

/// Graph `b` comes from graph `a` by evaluation alone: some dirty nodes of
/// `a` are clean, each is in the journal, each resource among them that
/// started an operation has one launch in the outbox, and nothing else
/// differs but who is subscribed to whom.
pub open spec fn advanced<D>(a: GraphSpec<D>, b: GraphSpec<D>) -> bool {
    &&& b.nodes.len() == a.nodes.len()
    &&& b.watchers == a.watchers
    &&& b.boundaries == a.boundaries
    &&& forall|k: int|
        0 <= k < a.nodes.len() ==> keeps(a.nodes[k], #[trigger] b.nodes[k]) || settled_from(
            a.nodes[k],
            b.nodes[k],
            b.nodes,
        )
    &&& a.journal.is_prefix_of(b.journal)
    &&& forall|k: NodeId|
        k < a.nodes.len() ==> (#[trigger] b.journal.contains(k) <==> a.journal.contains(k) || (
        a.nodes[k as int].phase is Dirty && b.nodes[k as int].phase is Clean))
    &&& a.outbox.is_prefix_of(b.outbox)
    &&& forall|i: int|
        a.outbox.len() <= i < b.outbox.len() ==> launch_of(a.nodes, b.nodes, #[trigger] b.outbox[i])
    &&& forall|k: int|
        0 <= k < a.nodes.len() && (#[trigger] b.nodes[k]).generation != a.nodes[k].generation
            ==> announced(a.outbox, b.outbox, k as NodeId)
    &&& forall|i: int, j: int|
        a.outbox.len() <= i < j < b.outbox.len() ==> (#[trigger] b.outbox[i]).resource != (
        #[trigger] b.outbox[j]).resource
}

/// The outbox has gained a launch for resource `k`.
pub open spec fn announced(before: Seq<LaunchSpec>, after: Seq<LaunchSpec>, k: NodeId) -> bool {
    exists|i: int| before.len() <= i < after.len() && (#[trigger] after[i]).resource == k
}

pub proof fn lemma_advanced_refl<D>(a: GraphSpec<D>)
    ensures
        advanced(a, a),
{
}

pub proof fn lemma_advanced_trans<D: Derivation>(a: GraphSpec<D>, b: GraphSpec<D>, c: GraphSpec<D>)
    requires
        advanced(a, b),
        advanced(b, c),
        sound(b.nodes),
    ensures
        advanced(a, c),
{
    assert forall|k: int| 0 <= k < a.nodes.len() implies keeps(a.nodes[k], #[trigger] c.nodes[k])
        || settled_from(a.nodes[k], c.nodes[k], c.nodes) by {
        lemma_node_trans(a, b, c, k);
    }
    assert forall|k: NodeId| k < a.nodes.len() implies (#[trigger] c.journal.contains(k)
        <==> a.journal.contains(k) || (a.nodes[k as int].phase is Dirty && c.nodes[k as int].phase is Clean)) by {
        assert(b.journal.contains(k) <==> a.journal.contains(k) || (a.nodes[k as int].phase is Dirty
            && b.nodes[k as int].phase is Clean));
        assert(keeps(a.nodes[k as int], b.nodes[k as int]) || settled_from(
            a.nodes[k as int],
            b.nodes[k as int],
            b.nodes,
        ));
        assert(keeps(b.nodes[k as int], c.nodes[k as int]) || settled_from(
            b.nodes[k as int],
            c.nodes[k as int],
            c.nodes,
        ));
    }
    assert forall|k: int|
        0 <= k < a.nodes.len() && (#[trigger] c.nodes[k]).generation
            != a.nodes[k].generation implies announced(a.outbox, c.outbox, k as NodeId) by {
        assert(keeps(a.nodes[k], b.nodes[k]) || settled_from(a.nodes[k], b.nodes[k], b.nodes));
        assert(keeps(b.nodes[k], c.nodes[k]) || settled_from(b.nodes[k], c.nodes[k], c.nodes));
        if b.nodes[k].generation != a.nodes[k].generation {
            assert(announced(a.outbox, b.outbox, k as NodeId));
            let i = choose|i: int|
                a.outbox.len() <= i < b.outbox.len() && (#[trigger] b.outbox[i]).resource == k as NodeId;
            assert(c.outbox[i] == b.outbox[i]);
        } else {
            assert(announced(b.outbox, c.outbox, k as NodeId));
            let i = choose|i: int|
                b.outbox.len() <= i < c.outbox.len() && (#[trigger] c.outbox[i]).resource == k as NodeId;
            assert(a.outbox.len() <= i < c.outbox.len() && c.outbox[i].resource == k as NodeId);
        }
    }
    assert forall|i: int, j: int| a.outbox.len() <= i < j < c.outbox.len() implies (
    #[trigger] c.outbox[i]).resource != (#[trigger] c.outbox[j]).resource by {
        if j < b.outbox.len() {
            assert(c.outbox[i] == b.outbox[i] && c.outbox[j] == b.outbox[j]);
        } else if i < b.outbox.len() {
            assert(c.outbox[i] == b.outbox[i]);
            assert(launch_of(a.nodes, b.nodes, b.outbox[i]));
            assert(launch_of(b.nodes, c.nodes, c.outbox[j]));
        }
    }
    assert forall|i: int| a.outbox.len() <= i < c.outbox.len() implies launch_of(
        a.nodes,
        c.nodes,
        #[trigger] c.outbox[i],
    ) by {
        let launch = c.outbox[i];
        let r = launch.resource as int;
        if i < b.outbox.len() {
            assert(b.outbox[i] == launch);
            assert(launch_of(a.nodes, b.nodes, b.outbox[i]));
            assert(keeps(b.nodes[r], c.nodes[r]) || settled_from(b.nodes[r], c.nodes[r], c.nodes));
        } else {
            assert(launch_of(b.nodes, c.nodes, launch));
            assert(keeps(a.nodes[r], b.nodes[r]) || settled_from(a.nodes[r], b.nodes[r], b.nodes));
        }
    }
}

proof fn lemma_node_trans<D: Derivation>(a: GraphSpec<D>, b: GraphSpec<D>, c: GraphSpec<D>, k: int)
    requires
        advanced(a, b),
        advanced(b, c),
        sound(b.nodes),
        0 <= k < a.nodes.len(),
    ensures
        keeps(a.nodes[k], c.nodes[k]) || settled_from(a.nodes[k], c.nodes[k], c.nodes),
{
    let (x, y, z) = (a.nodes[k], b.nodes[k], c.nodes[k]);
    assert(keeps(x, y) || settled_from(x, y, b.nodes));
    assert(keeps(y, z) || settled_from(y, z, c.nodes));
    if settled_from(x, y, b.nodes) {
        assert(keeps(y, z));
        match x.role {
            Role::Resource(t) => {
                assert(coherent_at(b.nodes, k));
                assert(y.deps == seq![t]);
                assert(y.deps[0] == t);
                assert(y.deps.contains(t));
                assert(b.nodes[t as int].phase is Clean);
                assert(keeps(b.nodes[t as int], c.nodes[t as int]) || settled_from(
                    b.nodes[t as int],
                    c.nodes[t as int],
                    c.nodes,
                ));
            },
            _ => {},
        }
    }
}

/// The invariant that evaluation keeps, also while it runs.
pub open spec fn steady<D: Derivation>(g: GraphSpec<D>) -> bool {
    &&& sound(g.nodes)
    &&& heeded(g)
    &&& logged(g.nodes, g.journal)
    &&& tidy(g.frames)
}

/// A node that is not clean may change to another phase that is not clean.
pub proof fn lemma_phase_sound<D: Derivation>(s: Seq<NodeSpec<D>>, n: int, phase: Phase)
    requires
        sound(s),
        0 <= n < s.len(),
        !(s[n].phase is Clean),
        !(phase is Clean),
    ensures
        sound(s.update(n, NodeSpec { phase, ..s[n] })),
{
    let t = s.update(n, NodeSpec { phase, ..s[n] });
    lemma_shape_kept(s, t);
    lemma_unmet_kept(s, t);
    assert(grounded(t)) by {
        assert forall|k: int, d: NodeId|
            0 <= k < t.len() && t[k].phase is Clean && #[trigger] t[k].deps.contains(
                d,
            ) implies t[d as int].phase is Clean by {
            assert(s[k].deps.contains(d));
            assert(within(s[k].deps, s.len()));
        }
    }
    assert forall|k: int| 0 <= k < t.len() implies #[trigger] coherent_at(t, k) by {
        assert(coherent_at(s, k));
        assert forall|d: NodeId| #[trigger] s[k].deps.contains(d) implies outcome(s[d as int])
            == outcome(t[d as int]) by {
            assert(within(s[k].deps, s.len()));
        }
        lemma_coherent_agrees(s, t, k);
    }
}

/// Nodes that keep their dependencies and subscriptions keep their shape.
pub proof fn lemma_shape_kept<D>(s: Seq<NodeSpec<D>>, t: Seq<NodeSpec<D>>)
    requires
        shaped(s),
        linked(s),
        t.len() == s.len(),
        forall|k: int| 0 <= k < s.len() ==> (#[trigger] t[k]).deps == s[k].deps && t[k].subs == s[k].subs,
    ensures
        shaped(t),
        linked(t),
{
    assert forall|n: int| 0 <= n < t.len() implies {
        &&& within((#[trigger] t[n]).deps, t.len())
        &&& t[n].deps.no_duplicates()
        &&& within(t[n].subs, t.len())
        &&& t[n].subs.no_duplicates()
    } by {
        assert(within(s[n].deps, s.len()));
        assert(within(s[n].subs, s.len()));
    }
    assert forall|n: NodeId, d: NodeId| n < t.len() && d < t.len() implies (
    t[n as int].deps.contains(d) <==> #[trigger] t[d as int].subs.contains(n)) by {
        assert(s[n as int].deps.contains(d) <==> s[d as int].subs.contains(n));
        assert(t[n as int].deps == s[n as int].deps);
    }
}

/// Evaluation never makes a node dirty.
pub proof fn lemma_advanced_count<D: Derivation>(a: GraphSpec<D>, b: GraphSpec<D>)
    requires
        advanced(a, b),
    ensures
        count_in(b.nodes, Phase::Dirty) <= count_in(a.nodes, Phase::Dirty),
        forall|k: int|
            0 <= k < a.nodes.len() ==> ((#[trigger] b.nodes[k]).phase is Running <==> a.nodes[k].phase is Running),
        layered(a.nodes) == layered(b.nodes),
{
    assert forall|k: int| 0 <= k < a.nodes.len() implies (#[trigger] a.nodes[k]).role
        == b.nodes[k].role by {
        assert(keeps(a.nodes[k], b.nodes[k]) || settled_from(a.nodes[k], b.nodes[k], b.nodes));
    }
    lemma_layered_same(a.nodes, b.nodes);
    assert forall|i: int| 0 <= i < a.nodes.len() && #[trigger] b.nodes[i].phase
        == Phase::Dirty implies a.nodes[i].phase == Phase::Dirty by {
        assert(keeps(a.nodes[i], b.nodes[i]) || settled_from(a.nodes[i], b.nodes[i], b.nodes));
    }
    lemma_count_shrinks(a.nodes, b.nodes, Phase::Dirty, 0);
    assert forall|k: int| 0 <= k < a.nodes.len() implies ((#[trigger] b.nodes[k]).phase is Running
        <==> a.nodes[k].phase is Running) by {
        assert(keeps(a.nodes[k], b.nodes[k]) || settled_from(a.nodes[k], b.nodes[k], b.nodes));
    }
}

} // verus!
