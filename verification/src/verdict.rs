//! The end of one evaluation: what was decided for the node, and why
//! writing it down, or giving the evaluation up, leaves the graph sound.

use vstd::prelude::*;
use crate::derivation::{Derivation, StepSpec};
use crate::graph::{
    coherent_at, concluded, earned, ended, grounded, handed, heeded, lemma_coherent_agrees,
    lemma_handed_agrees, lemma_heeded_kept, linked, outcome, replays, shaped, sound, unmet, wants,
    within, GraphSpec, LaunchSpec, NodeSpec, Phase, Role,
};

use crate::progress::{
    advanced, announced, feeds, launch_of, lemma_phase_sound, lemma_shape_kept, logged, needed,
    refreshed, settled_from, steady,
};

use crate::rewire::keeps;
use crate::value::{view_of, FaultSpec, NodeId, Status, StatusSpec, Value, ValueSpec};

verus! {

/// The part of a resource's state that tells its operations apart.
pub struct Channel {
    /// The trigger value that the last operation was started with.
    pub launched: Option<Value>,
    /// The stamp of the last operation.
    pub generation: u64,
}

/// What an evaluation decided for its node.
pub struct Verdict {
    pub status: Status,
    /// For a resource: what becomes of its channel.
    pub channel: Option<Channel>,
    /// Whether an operation is to be started.
    pub launch: bool,
}

impl Verdict {
    /// The trigger value that the node has on record once the verdict is
    /// written down.
    pub open spec fn launched<D>(&self, before: NodeSpec<D>) -> Option<ValueSpec> {
        match self.channel {
            Some(c) => view_of(c.launched),
            None => before.launched,
        }
    }

    /// The generation of the node once the verdict is written down.
    pub open spec fn generation<D>(&self, before: NodeSpec<D>) -> u64 {
        match self.channel {
            Some(c) => c.generation,
            None => before.generation,
        }
    }
}

/// The graph after an evaluation has settled node `n`: the node is clean
/// with the given state and entered in the journal, and the operation it
/// starts, if any, is in the outbox.
pub open spec fn recorded<D>(
    g: GraphSpec<D>,
    n: NodeId,
    status: StatusSpec,
    launched: Option<ValueSpec>,
    generation: u64,
    launch: bool,
) -> GraphSpec<D> {
    GraphSpec {
        nodes: g.nodes.update(
            n as int,
            NodeSpec { status, phase: Phase::Clean, launched, generation, ..g.nodes[n as int] },
        ),
        journal: g.journal.push(n),
        outbox: if launch {
            g.outbox.push(LaunchSpec { resource: n, generation, input: launched->0 })
        } else {
            g.outbox
        },
        dangling: g.dangling || (status is Errored && status->Errored_0 is UnknownNode),
        ..g
    }
}

/// The evaluation of node `n` may end with `reads` and `status`: the reads
/// are clean nodes, and the node is coherent once it has them.
pub open spec fn verdict_fits<D: Derivation>(
    s: Seq<NodeSpec<D>>,
    n: int,
    reads: Seq<NodeId>,
    status: StatusSpec,
    launched: Option<ValueSpec>,
) -> bool {
    &&& within(reads, s.len())
    &&& reads.no_duplicates()
    &&& forall|d: NodeId| #[trigger] reads.contains(d) ==> s[d as int].phase is Clean
    &&& match s[n].role {
        Role::Cell => false,
        Role::Computation(d) => replays(d, s, reads) && ended(d, s, reads) && status == concluded(
            d,
            s,
            reads,
        ),
        Role::Resource(t) => reads == seq![t] && match outcome(s[t as int]) {
            Err(f) => status == StatusSpec::Errored(f) && launched is None,
            Ok(v) => launched == Some(v) && earned(status),
        },
    }
}

/// A run whose reads all succeeded and whose derivation then concluded may
/// end there.
pub proof fn lemma_run_fits<D: Derivation>(
    s: Seq<NodeSpec<D>>,
    n: int,
    reads: Seq<NodeId>,
    status: StatusSpec,
)
    requires
        0 <= n < s.len(),
        s[n].role is Computation,
        within(reads, s.len()),
        reads.no_duplicates(),
        forall|x: NodeId| #[trigger] reads.contains(x) ==> s[x as int].phase is Clean,
        forall|i: int|
            0 <= i < reads.len() ==> {
                &&& outcome(s[(#[trigger] reads[i]) as int]) is Ok
                &&& s[n].role->Computation_0.next(handed(s, reads, i)) == StepSpec::Read(reads[i])
            },
        match s[n].role->Computation_0.next(handed(s, reads, reads.len() as int)) {
            StepSpec::Done(v) => status == StatusSpec::Ready(v),
            StepSpec::Fail(m) => status == StatusSpec::Errored(FaultSpec::Raised(m)),
            StepSpec::Read(m) => if reads.contains(m) {
                status == StatusSpec::Errored(FaultSpec::RepeatedRead(m))
            } else {
                m >= s.len() && status == StatusSpec::Errored(FaultSpec::UnknownNode(m))
            },
        },
    ensures
        verdict_fits(s, n, reads, status, None),
{
    let d = s[n].role->Computation_0;
    assert(replays(d, s, reads)) by {
        assert forall|i: int| 0 <= i < reads.len() implies {
            &&& #[trigger] d.next(handed(s, reads, i)) == StepSpec::Read(reads[i])
            &&& i < reads.len() - 1 ==> outcome(s[reads[i] as int]) is Ok
        } by {
            assert(outcome(s[reads[i] as int]) is Ok);
        }
    }
    if reads.len() > 0 {
        assert(outcome(s[reads[reads.len() - 1] as int]) is Ok);
    }
}

/// Completing the evaluation of a running node keeps the graph sound.
pub proof fn lemma_settle_sound<D: Derivation>(b: Seq<NodeSpec<D>>, c: Seq<NodeSpec<D>>, n: int)
    requires
        sound(b),
        0 <= n < b.len(),
        b[n].phase is Running,
        c.len() == b.len(),
        shaped(c),
        linked(c),
        forall|k: int| 0 <= k < b.len() && k != n ==> keeps(b[k], #[trigger] c[k]),
        c[n].role == b[n].role,
        c[n].phase is Clean,
        verdict_fits(b, n, c[n].deps, c[n].status, c[n].launched),
    ensures
        sound(c),
{
    let reads = c[n].deps;
    assert forall|d: NodeId| #[trigger] reads.contains(d) implies d != n && outcome(b[d as int])
        == outcome(c[d as int]) by {
        assert(b[d as int].phase is Clean);
        assert(keeps(b[d as int], c[d as int]));
    }
    assert(coherent_at(b, n));
    assert(unmet(c)) by {
        assert forall|k: int, id: NodeId|
            0 <= k < c.len() && c[k].phase is Clean && #[trigger] wants(c[k], id) implies id
            >= c.len() by {
            if k != n {
                assert(keeps(b[k], c[k]));
                assert(wants(b[k], id));
            } else {
                if reads.len() > 0 {
                    assert(reads.contains(reads.last()));
                    assert(b[reads.last() as int].phase is Clean);
                    if outcome(b[reads.last() as int]) is Err {
                        assert(wants(b[reads.last() as int], id));
                    }
                }
                match c[n].role {
                    Role::Resource(t) => {
                        assert(reads[0] == t);
                    },
                    _ => {},
                }
            }
        }
    }
    assert(grounded(c)) by {
        assert forall|k: int, d: NodeId|
            0 <= k < c.len() && c[k].phase is Clean && #[trigger] c[k].deps.contains(
                d,
            ) implies c[d as int].phase is Clean by {
            if k != n {
                assert(keeps(b[k], c[k]));
                assert(b[k].deps.contains(d));
                assert(within(b[k].deps, b.len()));
                assert(b[d as int].phase is Clean);
                assert(keeps(b[d as int], c[d as int]));
            } else {
                assert(keeps(b[d as int], c[d as int]));
            }
        }
    }
    assert forall|k: int| 0 <= k < c.len() implies #[trigger] coherent_at(c, k) by {
        if k != n {
            assert(keeps(b[k], c[k]));
            assert(coherent_at(b, k));
            if c[k].phase is Clean {
                assert forall|d: NodeId| #[trigger] b[k].deps.contains(d) implies outcome(b[d as int])
                    == outcome(c[d as int]) by {
                    assert(within(b[k].deps, b.len()));
                    assert(b[d as int].phase is Clean);
                    assert(keeps(b[d as int], c[d as int]));
                }
            }
            lemma_coherent_agrees(b, c, k);
        } else {
            assert(coherent_at(b, n));
            assert forall|i: int| 0 <= i < reads.len() implies outcome(b[reads[i] as int])
                == outcome(c[reads[i] as int]) by {
                assert(reads.contains(reads[i]));
            }
            match c[n].role {
                Role::Cell => {},
                Role::Computation(d) => {
                    assert forall|i: int| 0 <= i <= reads.len() implies handed(b, reads, i)
                        == handed(c, reads, i) by {
                        lemma_handed_agrees(b, c, reads, i);
                    }
                    assert(replays(d, c, reads)) by {
                        assert forall|i: int| 0 <= i < reads.len() implies {
                            &&& #[trigger] d.next(handed(c, reads, i)) == StepSpec::Read(reads[i])
                            &&& i < reads.len() - 1 ==> outcome(c[reads[i] as int]) is Ok
                        } by {
                            assert(handed(b, reads, i) == handed(c, reads, i));
                            assert(d.next(handed(b, reads, i)) == StepSpec::Read(reads[i]));
                        }
                    }
                    assert(handed(b, reads, reads.len() as int) == handed(c, reads, reads.len() as int));
                    if reads.len() > 0 {
                        assert(reads.contains(reads.last()));
                    }
                },
                Role::Resource(t) => {
                    assert(reads[0] == t);
                    assert(reads.contains(t));
                },
            }
        }
    }
}

/// What was settled stays settled when the phase of another node changes.
pub proof fn lemma_settled_agrees<D: Derivation>(
    x: NodeSpec<D>,
    y: NodeSpec<D>,
    s: Seq<NodeSpec<D>>,
    t: Seq<NodeSpec<D>>,
    k: int,
)
    requires
        settled_from(x, y, s),
        s.len() == t.len(),
        forall|i: int| 0 <= i < s.len() ==> outcome(#[trigger] s[i]) == outcome(t[i]),
        x.role is Resource ==> x.role->Resource_0 < s.len(),
    ensures
        settled_from(x, y, t),
{
    match x.role {
        Role::Resource(trigger) => {
            assert(outcome(s[trigger as int]) == outcome(t[trigger as int]));
        },
        _ => {},
    }
}

/// An evaluation that is abandoned leaves its node as it was.
pub proof fn lemma_abandon<D: Derivation>(
    a: GraphSpec<D>,
    a1: GraphSpec<D>,
    b: GraphSpec<D>,
    c: GraphSpec<D>,
    n: int,
)
    requires
        steady(a),
        0 <= n < a.nodes.len(),
        a.nodes[n].phase is Dirty,
        a1 == (GraphSpec {
            nodes: a.nodes.update(n, NodeSpec { phase: Phase::Running, ..a.nodes[n] }),
            frames: a1.frames,
            ..a
        }),
        steady(b),
        advanced(a1, b),
        c == (GraphSpec {
            nodes: b.nodes.update(n, NodeSpec { phase: Phase::Dirty, ..b.nodes[n] }),
            frames: a.frames,
            ..b
        }),
    ensures
        steady(c),
        advanced(a, c),
        c.nodes[n].phase is Dirty,
{
    assert(keeps(a1.nodes[n], b.nodes[n]) || settled_from(a1.nodes[n], b.nodes[n], b.nodes));
    lemma_phase_sound(b.nodes, n, Phase::Dirty);
    lemma_heeded_kept(b, c);
    assert(logged(c.nodes, c.journal)) by {
        assert forall|i: int| 0 <= i < c.journal.len() implies (#[trigger] c.journal[i]) < c.nodes.len()
            && c.nodes[c.journal[i] as int].phase is Clean by {
            assert(b.nodes[b.journal[i] as int].phase is Clean);
        }
        assert forall|i: int, j: int| 0 <= i < j < c.journal.len() implies !c.nodes[#[trigger] c.journal[i] as int].deps.contains(
            #[trigger] c.journal[j],
        ) by {
            assert(b.nodes[b.journal[i] as int].phase is Clean);
        }
    }
    assert forall|k: int| 0 <= k < a.nodes.len() implies keeps(a.nodes[k], #[trigger] c.nodes[k])
        || settled_from(a.nodes[k], c.nodes[k], c.nodes) by {
        assert(keeps(a1.nodes[k], b.nodes[k]) || settled_from(a1.nodes[k], b.nodes[k], b.nodes));
        if k != n && settled_from(a1.nodes[k], b.nodes[k], b.nodes) {
            assert(coherent_at(a.nodes, k));
            lemma_settled_agrees(a.nodes[k], b.nodes[k], b.nodes, c.nodes, k);
        }
    }
    assert forall|k: NodeId| k < a.nodes.len() implies (#[trigger] c.journal.contains(k)
        <==> a.journal.contains(k) || (a.nodes[k as int].phase is Dirty && c.nodes[k as int].phase is Clean)) by {
        assert(b.journal.contains(k) <==> a1.journal.contains(k) || (a1.nodes[k as int].phase is Dirty
            && b.nodes[k as int].phase is Clean));
    }
    assert forall|i: int| a.outbox.len() <= i < c.outbox.len() implies launch_of(
        a.nodes,
        c.nodes,
        #[trigger] c.outbox[i],
    ) by {
        assert(launch_of(a1.nodes, b.nodes, b.outbox[i]));
    }
    assert forall|i: int, j: int| a.outbox.len() <= i < j < c.outbox.len() implies (
    #[trigger] c.outbox[i]).resource != (#[trigger] c.outbox[j]).resource by {
        assert(b.outbox[i].resource != b.outbox[j].resource);
    }
    assert forall|k: int|
        0 <= k < a.nodes.len() && (#[trigger] c.nodes[k]).generation
            != a.nodes[k].generation implies announced(a.outbox, c.outbox, k as NodeId) by {
        assert(b.nodes[k].generation != a1.nodes[k].generation);
        assert(announced(a1.outbox, b.outbox, k as NodeId));
    }
}

/// An evaluation that is completed leaves a sound graph in which its node is
/// clean.
pub proof fn lemma_complete<D: Derivation>(
    a: GraphSpec<D>,
    a1: GraphSpec<D>,
    b: GraphSpec<D>,
    c1: GraphSpec<D>,
    c: GraphSpec<D>,
    n: int,
)
    requires
        steady(a),
        0 <= n < a.nodes.len(),
        a.nodes[n].phase is Dirty,
        a1 == (GraphSpec {
            nodes: a.nodes.update(n, NodeSpec { phase: Phase::Running, ..a.nodes[n] }),
            frames: a1.frames,
            ..a
        }),
        steady(b),
        advanced(a1, b),
        // the subscriptions of the node were replaced
        c1 == (GraphSpec { nodes: c1.nodes, frames: a.frames, ..b }),
        c1.nodes.len() == b.nodes.len(),
        shaped(c1.nodes),
        linked(c1.nodes),
        forall|k: int|
            0 <= k < b.nodes.len() ==> #[trigger] c1.nodes[k] == (NodeSpec {
                deps: if k == n {
                    c1.nodes[n].deps
                } else {
                    b.nodes[k].deps
                },
                subs: c1.nodes[k].subs,
                ..b.nodes[k]
            }),
        // the verdict was written down
        c.nodes == c1.nodes.update(
            n,
            NodeSpec {
                status: c.nodes[n].status,
                phase: Phase::Clean,
                launched: c.nodes[n].launched,
                generation: c.nodes[n].generation,
                ..c1.nodes[n]
            },
        ),
        c.journal == c1.journal.push(n as NodeId),
        c.frames == c1.frames,
        c.watchers == c1.watchers,
        c.boundaries == c1.boundaries,
        c.dangling == (c1.dangling || (c.nodes[n].status is Errored && c.nodes[n].status->Errored_0 is UnknownNode)),
        c.outbox == if c.nodes[n].generation != a.nodes[n].generation {
            c1.outbox.push(
                LaunchSpec {
                    resource: n as NodeId,
                    generation: c.nodes[n].generation,
                    input: c.nodes[n].launched->0,
                },
            )
        } else {
            c1.outbox
        },
        c.nodes[n].generation != a.nodes[n].generation ==> c.nodes[n].launched is Some
            && c.nodes[n].status is Pending && c.nodes[n].generation == a.nodes[n].generation + 1,
        verdict_fits(b.nodes, n, c1.nodes[n].deps, c.nodes[n].status, c.nodes[n].launched),
        needed(b.nodes, b.journal, a.journal.len() as int, c1.nodes[n].deps.to_set()),
        match a.nodes[n].role {
            Role::Resource(t) => {
                let r = refreshed(a.nodes[n], outcome(b.nodes[t as int]));
                c.nodes[n].status == r.status && c.nodes[n].launched == r.launched
                    && c.nodes[n].generation == r.generation
            },
            _ => c.nodes[n].launched == a.nodes[n].launched && c.nodes[n].generation
                == a.nodes[n].generation,
        },
    ensures
        steady(c),
        advanced(a, c),
        c.nodes[n].phase is Clean,
        needed(c.nodes, c.journal, a.journal.len() as int, set![n as NodeId]),
{
    assert(keeps(a1.nodes[n], b.nodes[n]) || settled_from(a1.nodes[n], b.nodes[n], b.nodes));
    let reads = c1.nodes[n].deps;
    assert forall|i: int| a.journal.len() <= i < c.journal.len() implies set![n as NodeId].contains(
        #[trigger] c.journal[i],
    ) || exists|j: int| #[trigger] feeds(c.nodes, c.journal, i, j) by {
        if i < b.journal.len() {
            let e = b.journal[i];
            assert(c.journal[i] == e);
            if reads.to_set().contains(e) {
                assert(reads.contains(e));
                assert(feeds(c.nodes, c.journal, i, b.journal.len() as int));
            } else {
                let j = choose|j: int| #[trigger] feeds(b.nodes, b.journal, i, j);
                let f = b.journal[j] as int;
                assert(b.nodes[f].phase is Clean);
                assert(c1.nodes[f] == (NodeSpec {
                    deps: b.nodes[f].deps,
                    subs: c1.nodes[f].subs,
                    ..b.nodes[f]
                }));
                assert(c.journal[j] == b.journal[j]);
                assert(feeds(c.nodes, c.journal, i, j));
            }
        }
    }
    assert forall|k: int| 0 <= k < b.nodes.len() && k != n implies keeps(
        b.nodes[k],
        #[trigger] c.nodes[k],
    ) by {
        assert(c1.nodes[k] == (NodeSpec { deps: b.nodes[k].deps, subs: c1.nodes[k].subs, ..b.nodes[k] }));
    }
    assert(c.nodes[n].deps == reads);
    assert(shaped(c.nodes) && linked(c.nodes)) by {
        lemma_shape_kept(c1.nodes, c.nodes);
    }
    lemma_settle_sound(b.nodes, c.nodes, n);
    assert(heeded(c)) by {
        if !c.dangling {
            assert forall|k: int, id: NodeId| 0 <= k < c.nodes.len() implies !#[trigger] wants(
                c.nodes[k],
                id,
            ) by {
                if k != n {
                    assert(keeps(b.nodes[k], c.nodes[k]));
                    assert(!wants(b.nodes[k], id));
                }
            }
        }
    }
    assert forall|x: NodeId| #[trigger] reads.contains(x) implies x != n && outcome(
        b.nodes[x as int],
    ) == outcome(c.nodes[x as int]) by {
        assert(b.nodes[x as int].phase is Clean);
        assert(keeps(b.nodes[x as int], c.nodes[x as int]));
    }
    assert(logged(c.nodes, c.journal)) by {
        assert(!b.journal.contains(n as NodeId)) by {
            if b.journal.contains(n as NodeId) {
                let i = choose|i: int| 0 <= i < b.journal.len() && b.journal[i] == n as NodeId;
                assert(b.nodes[b.journal[i] as int].phase is Clean);
            }
        }
        assert forall|i: int| 0 <= i < c.journal.len() implies (#[trigger] c.journal[i]) < c.nodes.len()
            && c.nodes[c.journal[i] as int].phase is Clean by {
            if i < b.journal.len() {
                assert(b.nodes[b.journal[i] as int].phase is Clean);
                assert(keeps(b.nodes[b.journal[i] as int], c.nodes[b.journal[i] as int]));
            }
        }
        assert forall|i: int, j: int| 0 <= i < j < c.journal.len() implies !c.nodes[#[trigger] c.journal[i] as int].deps.contains(
            #[trigger] c.journal[j],
        ) by {
            let e = b.journal[i];
            assert(b.nodes[e as int].phase is Clean);
            assert(keeps(b.nodes[e as int], c.nodes[e as int]));
            if j == b.journal.len() {
                if b.nodes[e as int].deps.contains(n as NodeId) {
                    assert(b.nodes[n].phase is Clean);
                }
            } else {
                assert(!b.nodes[b.journal[i] as int].deps.contains(b.journal[j]));
            }
        }
    }
    assert forall|k: int| 0 <= k < a.nodes.len() implies keeps(a.nodes[k], #[trigger] c.nodes[k])
        || settled_from(a.nodes[k], c.nodes[k], c.nodes) by {
        assert(keeps(a1.nodes[k], b.nodes[k]) || settled_from(a1.nodes[k], b.nodes[k], b.nodes));
        if k != n {
            assert(keeps(b.nodes[k], c.nodes[k]));
            if settled_from(a1.nodes[k], b.nodes[k], b.nodes) {
                match a.nodes[k].role {
                    Role::Resource(t) => {
                        assert(coherent_at(b.nodes, k));
                        assert(b.nodes[k].deps == seq![t]);
                        assert(b.nodes[k].deps[0] == t);
                        assert(b.nodes[k].deps.contains(t));
                        assert(b.nodes[t as int].phase is Clean);
                        assert(keeps(b.nodes[t as int], c.nodes[t as int]));
                    },
                    _ => {},
                }
            }
        } else {
            match a.nodes[n].role {
                Role::Resource(t) => {
                    assert(reads == seq![t]);
                    assert(reads[0] == t);
                    assert(reads.contains(t));
                },
                _ => {},
            }
        }
    }
    assert forall|k: NodeId| k < a.nodes.len() implies (#[trigger] c.journal.contains(k)
        <==> a.journal.contains(k) || (a.nodes[k as int].phase is Dirty && c.nodes[k as int].phase is Clean)) by {
        assert(b.journal.contains(k) <==> a1.journal.contains(k) || (a1.nodes[k as int].phase is Dirty
            && b.nodes[k as int].phase is Clean));
        assert(keeps(a1.nodes[k as int], b.nodes[k as int]) || settled_from(
            a1.nodes[k as int],
            b.nodes[k as int],
            b.nodes,
        ));
        if c.journal.contains(k) {
            let i = choose|i: int| 0 <= i < c.journal.len() && c.journal[i] == k;
            if i < b.journal.len() {
                assert(b.journal[i] == k);
                assert(b.journal.contains(k));
            }
        }
        if b.journal.contains(k) {
            let i = choose|i: int| 0 <= i < b.journal.len() && b.journal[i] == k;
            assert(c.journal[i] == k);
        }
        assert(c.journal[b.journal.len() as int] == n);
        if k != n {
            assert(keeps(b.nodes[k as int], c.nodes[k as int]));
        }
    }
    assert forall|k: int|
        0 <= k < a.nodes.len() && (#[trigger] c.nodes[k]).generation
            != a.nodes[k].generation implies announced(a.outbox, c.outbox, k as NodeId) by {
        if k != n {
            assert(keeps(b.nodes[k], c.nodes[k]));
            assert(b.nodes[k].generation != a1.nodes[k].generation);
            assert(announced(a1.outbox, b.outbox, k as NodeId));
            let i = choose|i: int|
                a1.outbox.len() <= i < b.outbox.len() && (#[trigger] b.outbox[i]).resource == k as NodeId;
            assert(c.outbox[i] == b.outbox[i]);
        } else {
            let i = b.outbox.len() as int;
            assert(a.outbox.len() <= i < c.outbox.len() && c.outbox[i].resource == n as NodeId);
        }
    }
    assert forall|i: int, j: int| a.outbox.len() <= i < j < c.outbox.len() implies (
    #[trigger] c.outbox[i]).resource != (#[trigger] c.outbox[j]).resource by {
        assert(c.outbox[i] == b.outbox[i]);
        assert(launch_of(a1.nodes, b.nodes, b.outbox[i]));
        if j < b.outbox.len() {
            assert(c.outbox[j] == b.outbox[j]);
            assert(b.outbox[i].resource != b.outbox[j].resource);
        }
    }
    assert forall|i: int| a.outbox.len() <= i < c.outbox.len() implies launch_of(
        a.nodes,
        c.nodes,
        #[trigger] c.outbox[i],
    ) by {
        if i < b.outbox.len() {
            let launch = b.outbox[i];
            assert(c.outbox[i] == launch);
            assert(launch_of(a1.nodes, b.nodes, launch));
            assert(launch.resource != n);
            assert(keeps(b.nodes[launch.resource as int], c.nodes[launch.resource as int]));
        }
    }
}

} // verus!
