//! Cycles: what it means that an evaluation cannot end because the nodes
//! wait for one another.

use vstd::prelude::*;
use crate::derivation::{Derivation, StepSpec};
use crate::graph::{handed, handed_one, outcome, quiet, within, NodeSpec, Phase, Role};
use crate::value::NodeId;

verus! {

/// An evaluation could have made `reads`: each was what the derivation
/// asked for next, and each was clean and had a value to hand out.
pub open spec fn led<D: Derivation>(d: D, s: Seq<NodeSpec<D>>, reads: Seq<NodeId>) -> bool {
    &&& within(reads, s.len())
    &&& forall|i: int|
        0 <= i < reads.len() ==> {
            &&& s[(#[trigger] reads[i]) as int].phase is Clean
            &&& outcome(s[reads[i] as int]) is Ok
            &&& d.next(handed(s, reads, i)) == StepSpec::Read(reads[i])
        }
}

/// Node `a` waits for node `b`: neither is clean, and the evaluation of `a`
/// comes to ask for `b`. A computation does so after reads of clean nodes
/// that lead its derivation there; a resource asks for its trigger.
pub open spec fn asks<D: Derivation>(s: Seq<NodeSpec<D>>, a: NodeId, b: NodeId) -> bool {
    &&& a < s.len()
    &&& b < s.len()
    &&& !(s[a as int].phase is Clean)
    &&& !(s[b as int].phase is Clean)
    &&& match s[a as int].role {
        Role::Cell => false,
        Role::Computation(d) => exists|reads: Seq<NodeId>| #[trigger]
            led(d, s, reads) && d.next(handed(s, reads, reads.len() as int)) == StepSpec::Read(b),
        Role::Resource(t) => b == t,
    }
}

/// Each node of `path` waits for the next.
pub open spec fn trail<D: Derivation>(s: Seq<NodeSpec<D>>, path: Seq<NodeId>) -> bool {
    &&& path.len() >= 1
    &&& forall|i: int| 0 <= i < path.len() - 1 ==> asks(s, path[i], #[trigger] path[i + 1])
}

/// `path` ends in a node that it has passed before.
pub open spec fn loops(path: Seq<NodeId>) -> bool {
    exists|j: int| 0 <= j < path.len() - 1 && #[trigger] path[j] == path.last()
}

/// The evaluation of node `n` cannot end: from `n`, node after node waits
/// for the next, down to node `z`, which is being evaluated already or was
/// passed on the way.
pub open spec fn trapped<D: Derivation>(s: Seq<NodeSpec<D>>, n: NodeId, z: NodeId) -> bool {
    exists|path: Seq<NodeId>| #[trigger]
        trail(s, path) && path[0] == n && path.last() == z && z < s.len() && (
        s[z as int].phase is Running || loops(path))
}

/// Node `n` leads into a cycle through node `z`: from `n`, node after
/// node waits for the next, and the way comes back to `z`.
pub open spec fn cyclic<D: Derivation>(s: Seq<NodeSpec<D>>, n: NodeId, z: NodeId) -> bool {
    exists|path: Seq<NodeId>| #[trigger]
        trail(s, path) && path[0] == n && path.last() == z && loops(path)
}

/// Where nothing is being evaluated, only a cycle traps an evaluation.
pub proof fn lemma_trapped_is_cyclic<D: Derivation>(s: Seq<NodeSpec<D>>, n: NodeId, z: NodeId)
    requires
        trapped(s, n, z),
        quiet(s),
    ensures
        cyclic(s, n, z),
{
    let path = choose|path: Seq<NodeId>| #[trigger]
        trail(s, path) && path[0] == n && path.last() == z && z < s.len() && (
        s[z as int].phase is Running || loops(path));
    assert(!(s[z as int].phase is Running));
    assert(trail(s, path) && path[0] == n && path.last() == z && loops(path));
}

/// A clean node leads into no cycle: it waits for nothing.
pub proof fn lemma_clean_is_free<D: Derivation>(s: Seq<NodeSpec<D>>, n: NodeId, z: NodeId)
    requires
        n < s.len(),
        s[n as int].phase is Clean,
    ensures
        !cyclic(s, n, z),
{
    if cyclic(s, n, z) {
        let path = choose|path: Seq<NodeId>| #[trigger]
            trail(s, path) && path[0] == n && path.last() == z && loops(path);
        assert(asks(s, path[0], path[0int + 1]));
    }
}

/// A node that is being evaluated is trapped in itself.
pub proof fn lemma_trapped_at<D: Derivation>(s: Seq<NodeSpec<D>>, m: NodeId)
    requires
        m < s.len(),
        s[m as int].phase is Running,
    ensures
        trapped(s, m, m),
{
    let path = seq![m];
    assert(trail(s, path) && path[0] == m && path.last() == m);
}

/// The reads that led a derivation somewhere still do when the nodes read
/// are as they were.
pub proof fn lemma_led_agrees<D: Derivation>(
    d: D,
    s: Seq<NodeSpec<D>>,
    t: Seq<NodeSpec<D>>,
    reads: Seq<NodeId>,
)
    requires
        led(d, s, reads),
        s.len() == t.len(),
        forall|x: NodeId| #[trigger]
            reads.contains(x) ==> t[x as int].phase is Clean && outcome(t[x as int]) == outcome(
                s[x as int],
            ),
    ensures
        led(d, t, reads),
        handed(t, reads, reads.len() as int) == handed(s, reads, reads.len() as int),
{
    assert forall|i: int| 0 <= i <= reads.len() implies handed(t, reads, i) == handed(s, reads, i) by {
        assert forall|j: int| 0 <= j < i implies handed_one(t, reads[j]) == handed_one(s, reads[j]) by {
            assert(reads.contains(reads[j]));
        }
        assert(handed(t, reads, i) =~= handed(s, reads, i));
    }
    assert forall|i: int| 0 <= i < reads.len() implies {
        &&& t[(#[trigger] reads[i]) as int].phase is Clean
        &&& outcome(t[reads[i] as int]) is Ok
        &&& d.next(handed(t, reads, i)) == StepSpec::Read(reads[i])
    } by {
        assert(reads.contains(reads[i]));
        assert(handed(t, reads, i) == handed(s, reads, i));
    }
}

/// Who waits for whom does not change when a node that is not clean goes
/// to another phase that is not clean.
pub proof fn lemma_asks_flip<D: Derivation>(
    s: Seq<NodeSpec<D>>,
    n: int,
    phase: Phase,
    a: NodeId,
    b: NodeId,
)
    requires
        0 <= n < s.len(),
        !(s[n].phase is Clean),
        !(phase is Clean),
        asks(s, a, b),
    ensures
        asks(s.update(n, NodeSpec { phase, ..s[n] }), a, b),
{
    let t = s.update(n, NodeSpec { phase, ..s[n] });
    match s[a as int].role {
        Role::Computation(d) => {
            let reads = choose|reads: Seq<NodeId>| #[trigger]
                led(d, s, reads) && d.next(handed(s, reads, reads.len() as int)) == StepSpec::Read(b);
            assert forall|x: NodeId| #[trigger] reads.contains(x) implies t[x as int].phase is Clean
                && outcome(t[x as int]) == outcome(s[x as int]) by {
                let i = choose|i: int| 0 <= i < reads.len() && reads[i] == x;
                assert(s[reads[i] as int].phase is Clean);
            }
            lemma_led_agrees(d, s, t, reads);
            assert(led(d, t, reads) && d.next(handed(t, reads, reads.len() as int))
                == StepSpec::Read(b));
        },
        _ => {},
    }
}

/// When the evaluation of node `n` is given up because the node `m` that it
/// asked for is trapped, `n` is trapped too.
pub proof fn lemma_trapped_grows<D: Derivation>(s: Seq<NodeSpec<D>>, n: NodeId, m: NodeId, z: NodeId)
    requires
        n < s.len(),
        s[n as int].phase is Running,
        asks(s, n, m),
        trapped(s, m, z),
    ensures
        trapped(s.update(n as int, NodeSpec { phase: Phase::Dirty, ..s[n as int] }), n, z),
{
    let t = s.update(n as int, NodeSpec { phase: Phase::Dirty, ..s[n as int] });
    let path = choose|path: Seq<NodeId>| #[trigger]
        trail(s, path) && path[0] == m && path.last() == z && z < s.len() && (
        s[z as int].phase is Running || loops(path));
    let longer = seq![n] + path;
    assert forall|i: int| 0 <= i < longer.len() - 1 implies asks(t, longer[i], #[trigger] longer[i + 1]) by {
        if i == 0 {
            assert(longer[1] == path[0]);
            lemma_asks_flip(s, n as int, Phase::Dirty, n, m);
        } else {
            assert(longer[i] == path[i - 1]);
            assert(longer[i + 1] == path[i - 1 + 1]);
            assert(asks(s, path[i - 1], path[i - 1 + 1]));
            lemma_asks_flip(s, n as int, Phase::Dirty, path[i - 1], path[i - 1 + 1]);
        }
    }
    assert(longer.last() == z);
    if z == n {
        assert(longer[0] == longer.last());
        assert(loops(longer));
    } else if loops(path) {
        let j = choose|j: int| 0 <= j < path.len() - 1 && #[trigger] path[j] == path.last();
        assert(longer[j + 1] == longer.last());
        assert(loops(longer));
    } else {
        assert(t[z as int].phase is Running);
    }
    assert(trail(t, longer) && longer[0] == n && longer.last() == z);
}

} // verus!
