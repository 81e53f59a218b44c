//! What a computation means: the status that comes of running its
//! derivation from scratch on the cells and resources as they stand.

use vstd::prelude::*;
use crate::derivation::{Derivation, StepSpec};
use crate::graph::{coherent_at, handed, layered, outcome, sound, within, yield_of, NodeSpec, Role};
use crate::rewire::lemma_distinct_bounded;
use crate::value::{FaultSpec, NodeId, StatusSpec, ValueSpec};

verus! {

/// The status of node `n` computed from scratch. A cell or a resource has
/// the status it has. A computation has the status in which its derivation
/// ends when each node it asks for is computed in the same way. Nothing
/// that any computation has cached enters into it.
pub open spec fn meaning<D: Derivation>(s: Seq<NodeSpec<D>>, n: int) -> StatusSpec
    decreases n, n + 2,
{
    if n < 0 {
        StatusSpec::Idle
    } else {
        match s[n].role {
            Role::Computation(d) => unfold(s, n, d, Seq::empty(), Seq::empty()),
            _ => s[n].status,
        }
    }
}

/// The status in which the derivation `d` of node `n` ends, once it has
/// made `reads` and been handed `seen`.
pub open spec fn unfold<D: Derivation>(
    s: Seq<NodeSpec<D>>,
    n: int,
    d: D,
    seen: Seq<ValueSpec>,
    reads: Seq<NodeId>,
) -> StatusSpec
    decreases n, n - reads.len() + 1,
{
    match d.next(seen) {
        StepSpec::Done(v) => StatusSpec::Ready(v),
        StepSpec::Fail(m) => StatusSpec::Errored(FaultSpec::Raised(m)),
        StepSpec::Read(m) => if reads.contains(m) {
            StatusSpec::Errored(FaultSpec::RepeatedRead(m))
        } else if m >= n || reads.len() >= n {
            StatusSpec::Errored(FaultSpec::UnknownNode(m))
        } else {
            match yield_of(meaning(s, m as int), s[m as int].last) {
                Err(f) => StatusSpec::Errored(f),
                Ok(v) => unfold(s, n, d, seen.push(v), reads.push(m)),
            }
        },
    }
}

/// Two graphs agree on what is given: they have the same nodes in the
/// same roles, and their cells and resources hold the same.
pub open spec fn same_givens<D>(s: Seq<NodeSpec<D>>, t: Seq<NodeSpec<D>>) -> bool {
    &&& s.len() == t.len()
    &&& forall|k: int|
        0 <= k < s.len() ==> {
            &&& (#[trigger] s[k]).role == t[k].role
            &&& s[k].last == t[k].last
            &&& !(s[k].role is Computation) ==> s[k].status == t[k].status
        }
}

/// The meaning of a node is a function of the derivations and of what the
/// cells and resources hold: graphs that agree on these agree on it.
pub proof fn lemma_meaning_of_givens<D: Derivation>(s: Seq<NodeSpec<D>>, t: Seq<NodeSpec<D>>, n: int)
    requires
        same_givens(s, t),
        0 <= n < s.len(),
    ensures
        meaning(s, n) == meaning(t, n),
    decreases n, n + 2,
{
    match s[n].role {
        Role::Computation(d) => {
            lemma_unfold_of_givens(s, t, n, d, Seq::empty(), Seq::empty());
        },
        _ => {},
    }
}

proof fn lemma_unfold_of_givens<D: Derivation>(
    s: Seq<NodeSpec<D>>,
    t: Seq<NodeSpec<D>>,
    n: int,
    d: D,
    seen: Seq<ValueSpec>,
    reads: Seq<NodeId>,
)
    requires
        same_givens(s, t),
        0 <= n < s.len(),
    ensures
        unfold(s, n, d, seen, reads) == unfold(t, n, d, seen, reads),
    decreases n, n - reads.len() + 1,
{
    match d.next(seen) {
        StepSpec::Read(m) => {
            if !reads.contains(m) && m < n && reads.len() < n {
                lemma_meaning_of_givens(s, t, m as int);
                match yield_of(meaning(s, m as int), s[m as int].last) {
                    Ok(v) => {
                        lemma_unfold_of_givens(s, t, n, d, seen.push(v), reads.push(m));
                    },
                    Err(_) => {},
                }
            }
        },
        _ => {},
    }
}

/// In a sound and layered graph, every clean node has the status that it
/// means.
pub proof fn lemma_clean_is_meant<D: Derivation>(s: Seq<NodeSpec<D>>, n: int)
    requires
        sound(s),
        layered(s),
        0 <= n < s.len(),
        s[n].phase is Clean,
    ensures
        s[n].status == meaning(s, n),
    decreases n, 1int, 0int,
{
    match s[n].role {
        Role::Computation(d) => {
            assert(coherent_at(s, n));
            assert(handed(s, s[n].deps, 0) =~= Seq::<ValueSpec>::empty());
            assert(s[n].deps.subrange(0, 0) =~= Seq::<NodeId>::empty());
            lemma_unfold_follows(s, n, d, 0);
        },
        _ => {},
    }
}

/// From any point of the reads that a clean computation has on record, the
/// derivation runs on to the status that the computation has.
proof fn lemma_unfold_follows<D: Derivation>(s: Seq<NodeSpec<D>>, n: int, d: D, i: int)
    requires
        sound(s),
        layered(s),
        0 <= n < s.len(),
        s[n].phase is Clean,
        s[n].role == Role::Computation(d),
        0 <= i <= s[n].deps.len(),
        forall|j: int| 0 <= j < i ==> outcome(s[(#[trigger] s[n].deps[j]) as int]) is Ok,
    ensures
        unfold(s, n, d, handed(s, s[n].deps, i), s[n].deps.subrange(0, i)) == s[n].status,
    decreases n, 0int, s[n].deps.len() - i,
{
    let reads = s[n].deps;
    let before = reads.subrange(0, i);
    assert(coherent_at(s, n));
    assert(within(reads, s.len()));
    assert(reads.no_duplicates());
    if i == reads.len() {
        assert(before =~= reads);
        if reads.len() > 0 {
            assert(outcome(s[reads[reads.len() - 1] as int]) is Ok);
        }
        match d.next(handed(s, reads, i)) {
            StepSpec::Read(m) => {
                if !reads.contains(m) {
                    assert(m >= s.len());
                }
            },
            _ => {},
        }
    } else {
        let m = reads[i];
        assert(d.next(handed(s, reads, i)) == StepSpec::Read(m));
        assert(reads.contains(m));
        assert(!before.contains(m)) by {
            if before.contains(m) {
                let j = choose|j: int| 0 <= j < before.len() && before[j] == m;
                assert(reads[j] == m);
            }
        }
        assert(m < n) by {
            assert(match s[n].role->Computation_0.next(handed(s, reads, i)) {
                StepSpec::Read(x) => x < n,
                _ => true,
            });
        }
        let upto = reads.subrange(0, i + 1);
        assert(upto.no_duplicates());
        assert(within(upto, n as nat)) by {
            assert forall|x: NodeId| #[trigger] upto.contains(x) implies x < n by {
                let j = choose|j: int| 0 <= j < upto.len() && upto[j] == x;
                assert(reads[j] == x);
                assert(d.next(handed(s, reads, j)) == StepSpec::Read(reads[j]));
                assert(match s[n].role->Computation_0.next(handed(s, reads, j)) {
                    StepSpec::Read(y) => y < n,
                    _ => true,
                });
            }
        }
        lemma_distinct_bounded(upto, n as nat);
        assert(before.len() < n);
        assert(s[m as int].phase is Clean);
        lemma_clean_is_meant(s, m as int);
        assert(yield_of(meaning(s, m as int), s[m as int].last) == outcome(s[m as int]));
        match outcome(s[m as int]) {
            Err(f) => {
                assert(i == reads.len() - 1);
                assert(reads.last() == m);
            },
            Ok(v) => {
                assert(handed(s, reads, i + 1) =~= handed(s, reads, i).push(v));
                assert(upto =~= before.push(m));
                assert forall|j: int| 0 <= j < i + 1 implies outcome(
                    s[(#[trigger] reads[j]) as int],
                ) is Ok by {}
                lemma_unfold_follows(s, n, d, i + 1);
            },
        }
    }
}

} // verus!
