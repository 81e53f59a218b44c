//! Invalidation: a change to one node marks everything that depends on it,
//! directly or through other nodes, as dirty.

use vstd::prelude::*;
use crate::derivation::Derivation;
use crate::graph::{
    coherent_at, grounded, lemma_coherent_agrees, lemma_heeded_kept, linked, outcome, quiet, shaped,
    sound, within, Graph, GraphSpec, NodeSpec, Phase, Role,
};
use crate::value::{NodeId, Status, StatusSpec, Value, ValueSpec};

verus! {

/// `path` leads from node to subscriber, step by step.
pub open spec fn chain<D>(s: Seq<NodeSpec<D>>, path: Seq<NodeId>) -> bool {
    &&& path.len() >= 2
    &&& forall|i: int| 0 <= i < path.len() ==> (#[trigger] path[i]) < s.len()
    &&& forall|i: int|
        0 <= i < path.len() - 1 ==> s[path[i] as int].subs.contains(#[trigger] path[i + 1])
}

/// Node `b` depends on node `a`, directly or through other nodes.
pub open spec fn reaches<D>(s: Seq<NodeSpec<D>>, a: int, b: int) -> bool {
    exists|path: Seq<NodeId>| #[trigger] chain(s, path) && path[0] == a && path.last() == b
}

/// The nodes after a change to node `c`: every clean node that depends on
/// `c` is dirty and touched, and nothing else differs.
pub open spec fn invalidated<D>(s: Seq<NodeSpec<D>>, c: int) -> Seq<NodeSpec<D>> {
    Seq::new(
        s.len(),
        |k: int|
            if s[k].phase is Clean && reaches(s, c, k) {
                NodeSpec { phase: Phase::Dirty, touched: true, ..s[k] }
            } else {
                s[k]
            },
    )
}

/// The nodes after `value` is written to cell `c`.
pub open spec fn written<D>(s: Seq<NodeSpec<D>>, c: int, value: ValueSpec) -> Seq<NodeSpec<D>> {
    invalidated(s, c).update(
        c,
        NodeSpec { status: StatusSpec::Ready(value), touched: true, ..s[c] },
    )
}

/// How many nodes are in `phase`.
pub open spec fn count_in<D>(s: Seq<NodeSpec<D>>, phase: Phase) -> nat
    decreases s.len(),
{
    if s.len() == 0 {
        0
    } else {
        count_in(s.drop_last(), phase) + if s.last().phase == phase {
            1nat
        } else {
            0nat
        }
    }
}

/// Where no node enters a phase, the count of that phase does not grow; and
/// it shrinks if node `j` leaves it.
pub proof fn lemma_count_shrinks<D>(s1: Seq<NodeSpec<D>>, s2: Seq<NodeSpec<D>>, phase: Phase, j: int)
    requires
        s1.len() == s2.len(),
        forall|i: int| 0 <= i < s1.len() && #[trigger] s2[i].phase == phase ==> s1[i].phase == phase,
    ensures
        count_in(s2, phase) <= count_in(s1, phase),
        0 <= j < s1.len() && s1[j].phase == phase && s2[j].phase != phase ==> count_in(s2, phase)
            < count_in(s1, phase),
    decreases s1.len(),
{
    if s1.len() > 0 {
        lemma_count_shrinks(s1.drop_last(), s2.drop_last(), phase, j);
        assert(s2[s2.len() - 1].phase == phase ==> s1[s1.len() - 1].phase == phase);
    }
}

pub proof fn lemma_reach_first<D>(s: Seq<NodeSpec<D>>, a: NodeId, b: NodeId)
    requires
        a < s.len(),
        b < s.len(),
        s[a as int].subs.contains(b),
    ensures
        reaches(s, a as int, b as int),
{
    let path = seq![a, b];
    assert(chain(s, path));
}

pub proof fn lemma_reach_further<D>(s: Seq<NodeSpec<D>>, a: int, b: NodeId, c: NodeId)
    requires
        reaches(s, a, b as int),
        c < s.len(),
        s[b as int].subs.contains(c),
    ensures
        reaches(s, a, c as int),
{
    let path = choose|path: Seq<NodeId>| #[trigger] chain(s, path) && path[0] == a && path.last() == b;
    let longer = path.push(c);
    assert forall|i: int| 0 <= i < longer.len() - 1 implies s[longer[i] as int].subs.contains(
        #[trigger] longer[i + 1],
    ) by {
        if i < path.len() - 1 {
            assert(longer[i + 1] == path[i + 1]);
        }
    }
    assert(chain(s, longer));
}

/// A node is reached only through what it depends on.
pub proof fn lemma_reach_last<D>(s: Seq<NodeSpec<D>>, a: int, b: int)
    requires
        reaches(s, a, b),
        s.len() <= usize::MAX,
    ensures
        0 <= b < s.len(),
        exists|x: NodeId|
            x < s.len() && #[trigger] s[x as int].subs.contains(b as NodeId) && (x == a || reaches(
                s,
                a,
                x as int,
            )),
{
    let path = choose|path: Seq<NodeId>| #[trigger] chain(s, path) && path[0] == a && path.last() == b;
    let x = path[path.len() - 2];
    let last = path[path.len() - 2 + 1];
    assert(last == b);
    assert(s[x as int].subs.contains(last));
    assert(b as NodeId == last);
    if path.len() > 2 {
        let shorter = path.drop_last();
        assert(chain(s, shorter)) by {
            assert forall|i: int| 0 <= i < shorter.len() - 1 implies s[shorter[i] as int].subs.contains(
                #[trigger] shorter[i + 1],
            ) by {
                assert(shorter[i + 1] == path[i + 1]);
            }
        }
        assert(shorter.last() == x);
    }
}

/// If the subscribers of `c` are all in a set that is closed under
/// subscription, then so is everything that depends on `c`.
pub proof fn lemma_chain_stays<D>(
    s: Seq<NodeSpec<D>>,
    inside: spec_fn(NodeId) -> bool,
    c: int,
    path: Seq<NodeId>,
    i: int,
)
    requires
        chain(s, path),
        path[0] == c,
        1 <= i < path.len(),
        forall|k: NodeId, x: NodeId|
            k < s.len() && (k == c || inside(k)) && #[trigger] s[k as int].subs.contains(x)
                ==> #[trigger] inside(x),
    ensures
        inside(path[i]),
    decreases i,
{
    if i > 1 {
        lemma_chain_stays(s, inside, c, path, i - 1);
    }
    assert(s[path[i - 1] as int].subs.contains(path[i - 1 + 1]));
}

/// Invalidation keeps a well-formed graph well formed.
pub proof fn lemma_invalidated_sound<D: Derivation>(s: Seq<NodeSpec<D>>, c: int)
    requires
        sound(s),
        quiet(s),
        0 <= c < s.len(),
    ensures
        sound(invalidated(s, c)),
        quiet(invalidated(s, c)),
{
    let t = invalidated(s, c);
    assert(shaped(t)) by {
        assert forall|n: int| 0 <= n < t.len() implies {
            &&& within((#[trigger] t[n]).deps, t.len())
            &&& t[n].deps.no_duplicates()
            &&& within(t[n].subs, t.len())
            &&& t[n].subs.no_duplicates()
        } by {
            assert(t[n].deps == s[n].deps);
            assert(t[n].subs == s[n].subs);
        }
    }
    assert(linked(t)) by {
        assert forall|n: NodeId, d: NodeId| n < t.len() && d < t.len() implies (
        t[n as int].deps.contains(d) <==> #[trigger] t[d as int].subs.contains(n)) by {
            assert(s[n as int].deps.contains(d) <==> s[d as int].subs.contains(n));
        }
    }
    assert(grounded(t)) by {
        assert forall|n: int, d: NodeId|
            0 <= n < t.len() && t[n].phase is Clean && #[trigger] t[n].deps.contains(
                d,
            ) implies t[d as int].phase is Clean by {
            assert(s[n].deps.contains(d));
            assert(within(s[n].deps, s.len()));
            assert(s[d as int].phase is Clean);
            assert(s[n as NodeId as int].deps.contains(d) <==> s[d as int].subs.contains(n as NodeId));
            if reaches(s, c, d as int) {
                lemma_reach_further(s, c, d, n as NodeId);
            }
        }
    }
    assert forall|n: int| 0 <= n < t.len() implies #[trigger] coherent_at(t, n) by {
        assert(coherent_at(s, n));
        if s[n].role is Cell && reaches(s, c, n) {
            lemma_reach_last(s, c, n);
            let x = choose|x: NodeId|
                x < s.len() && #[trigger] s[x as int].subs.contains(n as NodeId);
            assert(s[n as NodeId as int].deps.contains(x) <==> s[x as int].subs.contains(n as NodeId));
        }
        assert forall|d: NodeId| #[trigger] s[n].deps.contains(d) implies outcome(s[d as int])
            == outcome(t[d as int]) by {
            assert(within(s[n].deps, s.len()));
        }
        lemma_coherent_agrees(s, t, n);
    }
}

/// Writing to a cell keeps a well-formed graph well formed.
pub proof fn lemma_written_sound<D: Derivation>(s: Seq<NodeSpec<D>>, c: int, value: ValueSpec)
    requires
        sound(s),
        quiet(s),
        0 <= c < s.len(),
        s[c].role is Cell,
    ensures
        sound(written(s, c, value)),
        quiet(written(s, c, value)),
{
    let m = invalidated(s, c);
    let t = written(s, c, value);
    lemma_invalidated_sound(s, c);
    assert(coherent_at(m, c));
    assert(m[c].phase is Clean);
    assert(m[c] == s[c]);
    assert(shaped(t)) by {
        assert forall|n: int| 0 <= n < t.len() implies {
            &&& within((#[trigger] t[n]).deps, t.len())
            &&& t[n].deps.no_duplicates()
            &&& within(t[n].subs, t.len())
            &&& t[n].subs.no_duplicates()
        } by {
            assert(t[n].deps == m[n].deps);
            assert(t[n].subs == m[n].subs);
        }
    }
    assert(linked(t)) by {
        assert forall|n: NodeId, d: NodeId| n < t.len() && d < t.len() implies (
        t[n as int].deps.contains(d) <==> #[trigger] t[d as int].subs.contains(n)) by {
            assert(m[n as int].deps.contains(d) <==> m[d as int].subs.contains(n));
        }
    }
    assert(grounded(t)) by {
        assert forall|n: int, d: NodeId|
            0 <= n < t.len() && t[n].phase is Clean && #[trigger] t[n].deps.contains(
                d,
            ) implies t[d as int].phase is Clean by {
            assert(m[n].deps.contains(d));
        }
    }
    assert forall|n: int| 0 <= n < t.len() implies #[trigger] coherent_at(t, n) by {
        assert(coherent_at(m, n));
        if n != c && t[n].phase is Clean {
            assert forall|d: NodeId| #[trigger] m[n].deps.contains(d) implies outcome(m[d as int])
                == outcome(t[d as int]) by {
                assert(within(m[n].deps, m.len()));
                if d == c {
                    assert(s[n as NodeId as int].deps.contains(d) <==> s[d as int].subs.contains(
                        n as NodeId,
                    ));
                    lemma_reach_first(s, c as NodeId, n as NodeId);
                }
            }
            lemma_coherent_agrees(m, t, n);
        }
    }
}

impl<D: Derivation> Graph<D> {
    /// Marks node `k` as dirty and touched.
    fn stale(&mut self, k: NodeId)
        requires
            k < old(self)@.nodes.len(),
        ensures
            final(self)@ == (GraphSpec {
                nodes: old(self)@.nodes.update(
                    k as int,
                    NodeSpec { phase: Phase::Dirty, touched: true, ..old(self)@.nodes[k as int] },
                ),
                ..old(self)@
            }),
    {
        self.nodes[k].phase = Phase::Dirty;
        self.nodes[k].touched = true;
        proof {
            assert(self@.nodes =~= old(self)@.nodes.update(
                k as int,
                NodeSpec { phase: Phase::Dirty, touched: true, ..old(self)@.nodes[k as int] },
            ));
            assert(self@.boundaries =~= old(self)@.boundaries);
            assert(self@.outbox =~= old(self)@.outbox);
        }
    }

    /// Adds the subscribers of node `k` to `todo`.
    fn enqueue(&self, k: NodeId, todo: &mut Vec<NodeId>)
        requires
            k < self@.nodes.len(),
        ensures
            final(todo)@ == old(todo)@ + self@.nodes[k as int].subs,
    {
        let mut i: usize = 0;
        while i < self.nodes[k].subs.len()
            invariant
                k < self.nodes@.len(),
                i <= self.nodes@[k as int].subs@.len(),
                todo@ == old(todo)@ + self.nodes@[k as int].subs@.subrange(0, i as int),
            decreases self.nodes@[k as int].subs@.len() - i,
        {
            todo.push(self.nodes[k].subs[i]);
            i += 1;
            assert(todo@ =~= old(todo)@ + self.nodes@[k as int].subs@.subrange(0, i as int));
        }
        assert(self.nodes@[k as int].subs@.subrange(0, i as int) =~= self.nodes@[k as int].subs@);
    }

    /// Invalidates everything that depends on node `c`.
    pub(crate) fn mark(&mut self, c: NodeId)
        requires
            old(self).wf(),
            c < old(self)@.nodes.len(),
        ensures
            final(self).wf(),
            final(self)@ == (GraphSpec { nodes: invalidated(old(self)@.nodes, c as int), ..old(self)@ }),
    {
        proof {
            let s0 = self@.nodes;
            assert forall|k: NodeId, x: NodeId|
                k < s0.len() && !(s0[k as int].phase is Clean) && #[trigger] s0[k as int].subs.contains(
                    x,
                ) implies !(s0[x as int].phase is Clean) by {
                assert(within(s0[k as int].subs, s0.len()));
                assert(s0[x as int].deps.contains(k) <==> s0[k as int].subs.contains(x));
            }
        }
        self.spread(c);
        proof {
            lemma_invalidated_sound(old(self)@.nodes, c as int);
            lemma_heeded_kept(old(self)@, self@);
        }
    }

    /// Walks from node `c` along the subscriptions and makes every clean
    /// node on the way dirty. It stops at nodes that are dirty already: what
    /// depends on them is dirty too.
    #[verifier::loop_isolation(false)]
    fn spread(&mut self, c: NodeId)
        requires
            shaped(old(self)@.nodes),
            c < old(self)@.nodes.len(),
            forall|k: NodeId, x: NodeId|
                k < old(self)@.nodes.len() && !(old(self)@.nodes[k as int].phase is Clean)
                    && #[trigger] old(self)@.nodes[k as int].subs.contains(x) ==> !(old(self)@.nodes[x as int].phase is Clean),
        ensures
            final(self)@ == (GraphSpec { nodes: invalidated(old(self)@.nodes, c as int), ..old(self)@ }),
    {
        let ghost s0 = self@.nodes;
        let mut todo: Vec<NodeId> = Vec::new();
        self.enqueue(c, &mut todo);
        proof {
            assert forall|j: int| 0 <= j < todo@.len() implies todo@[j] < s0.len() && reaches(
                s0,
                c as int,
                todo@[j] as int,
            ) by {
                assert(s0[c as int].subs.contains(todo@[j]));
                assert(within(s0[c as int].subs, s0.len()));
                lemma_reach_first(s0, c, todo@[j]);
            }
            assert forall|k: NodeId, x: NodeId|
                k < s0.len() && (k == c || !(s0[k as int].phase is Clean))
                    && #[trigger] s0[k as int].subs.contains(x) implies !(s0[x as int].phase is Clean)
                || todo@.contains(x) by {
                assert(within(s0[k as int].subs, s0.len()));
            }
        }
        while todo.len() > 0
            invariant
                self@ == (GraphSpec { nodes: self@.nodes, ..old(self)@ }),
                self@.nodes.len() == s0.len(),
                forall|k: int|
                    0 <= k < s0.len() ==> #[trigger] self@.nodes[k] == s0[k] || (s0[k].phase is Clean
                        && reaches(s0, c as int, k) && self@.nodes[k] == NodeSpec {
                        phase: Phase::Dirty,
                        touched: true,
                        ..s0[k]
                    }),
                forall|j: int|
                    0 <= j < todo@.len() ==> (#[trigger] todo@[j]) < s0.len() && reaches(
                        s0,
                        c as int,
                        todo@[j] as int,
                    ),
                forall|k: NodeId, x: NodeId|
                    k < s0.len() && (k == c || !(self@.nodes[k as int].phase is Clean))
                        && #[trigger] s0[k as int].subs.contains(x) ==> !(self@.nodes[x as int].phase is Clean)
                        || todo@.contains(x),
            decreases count_in(self@.nodes, Phase::Clean), todo@.len(),
        {
            let ghost before = self@.nodes;
            let ghost queue = todo@;
            let k = todo.pop().unwrap();
            assert(queue[queue.len() - 1] == k);
            assert(k < s0.len());
            if self.nodes[k].phase == Phase::Clean {
                self.stale(k);
                self.enqueue(k, &mut todo);
                proof {
                    lemma_count_shrinks(before, self@.nodes, Phase::Clean, k as int);
                    assert(before[k as int] == s0[k as int]);
                    assert forall|j: int| 0 <= j < todo@.len() implies (#[trigger] todo@[j]) < s0.len()
                        && reaches(s0, c as int, todo@[j] as int) by {
                        if j >= queue.len() - 1 {
                            let x = todo@[j];
                            assert(x == s0[k as int].subs[j - (queue.len() - 1)]);
                            assert(s0[k as int].subs.contains(x));
                            assert(within(s0[k as int].subs, s0.len()));
                            lemma_reach_further(s0, c as int, k, x);
                        } else {
                            assert(todo@[j] == queue[j]);
                        }
                    }
                    assert forall|a: NodeId, x: NodeId|
                        a < s0.len() && (a == c || !(self@.nodes[a as int].phase is Clean))
                            && #[trigger] s0[a as int].subs.contains(x) implies !(self@.nodes[x as int].phase is Clean)
                        || todo@.contains(x) by {
                        assert(within(s0[a as int].subs, s0.len()));
                        if a == k {
                            let i = choose|i: int|
                                0 <= i < s0[k as int].subs.len() && s0[k as int].subs[i] == x;
                            assert(todo@[queue.len() - 1 + i] == x);
                        } else {
                            assert(a == c || !(before[a as int].phase is Clean));
                            if before[x as int].phase is Clean && x != k {
                                assert(queue.contains(x));
                                let i = choose|i: int| 0 <= i < queue.len() && queue[i] == x;
                                if i == queue.len() - 1 {
                                    assert(x == k);
                                }
                                assert(todo@[i] == x);
                            }
                        }
                    }
                }
            } else {
                proof {
                    assert forall|a: NodeId, x: NodeId|
                        a < s0.len() && (a == c || !(self@.nodes[a as int].phase is Clean))
                            && #[trigger] s0[a as int].subs.contains(x) implies !(self@.nodes[x as int].phase is Clean)
                        || todo@.contains(x) by {
                        if self@.nodes[x as int].phase is Clean {
                            assert(queue.contains(x));
                            let i = choose|i: int| 0 <= i < queue.len() && queue[i] == x;
                            assert(todo@[i] == x);
                        }
                    }
                }
            }
        }
        proof {
            let g = self@.nodes;
            let inside = |x: NodeId| x < s0.len() && !(g[x as int].phase is Clean);
            assert forall|k: int| 0 <= k < s0.len() implies g[k] == #[trigger] invalidated(
                s0,
                c as int,
            )[k] by {
                if s0[k].phase is Clean && reaches(s0, c as int, k) {
                    let path = choose|path: Seq<NodeId>| #[trigger]
                        chain(s0, path) && path[0] == c as int && path.last() == k;
                    assert forall|a: NodeId, x: NodeId|
                        a < s0.len() && (a == c || inside(a)) && #[trigger] s0[a as int].subs.contains(
                            x,
                        ) implies #[trigger] inside(x) by {
                        assert(within(s0[a as int].subs, s0.len()));
                        assert(todo@.len() == 0);
                    }
                    lemma_chain_stays(s0, inside, c as int, path, path.len() - 1);
                }
            }
            assert(g =~= invalidated(s0, c as int));
        }
    }

    /// Whether node `id` is a cell.
    pub fn is_cell(&self, id: NodeId) -> (r: bool)
        ensures
            r == (id < self@.nodes.len() && self@.nodes[id as int].role is Cell),
    {
        if id < self.nodes.len() {
            match &self.nodes[id].role {
                Role::Cell => true,
                _ => false,
            }
        } else {
            false
        }
    }

    /// Replaces the value of a cell. What depends on the cell becomes dirty
    /// at once, and is brought up to date by the next pass or the next read.
    pub fn write(&mut self, cell: NodeId, value: Value)
        requires
            old(self).wf(),
            cell < old(self)@.nodes.len(),
            old(self)@.nodes[cell as int].role is Cell,
        ensures
            final(self).wf(),
            final(self)@ == (GraphSpec {
                nodes: written(old(self)@.nodes, cell as int, value@),
                ..old(self)@
            }),
    {
        self.mark(cell);
        let ghost mid = self@;
        self.nodes[cell].status = Status::Ready(value);
        self.nodes[cell].touched = true;
        proof {
            let s = old(self)@.nodes;
            lemma_invalidated_sound(s, cell as int);
            assert(coherent_at(mid.nodes, cell as int));
            assert(mid.nodes[cell as int] == s[cell as int]);
            assert(self@.nodes =~= written(s, cell as int, value@));
            assert(self@.boundaries =~= mid.boundaries);
            assert(self@.outbox =~= mid.outbox);
            lemma_written_sound(s, cell as int, value@);
            lemma_heeded_kept(old(self)@, self@);
        }
    }
}

} // verus!
