//! The scheduler: one pass brings up to date everything that the writes
//! since the last pass made dirty, and says whom to notify.

use vstd::prelude::*;
use crate::cycle::{cyclic, lemma_trapped_is_cyclic};
use crate::derivation::Derivation;
use crate::progress::{
    advanced, feeds, lemma_advanced_count, lemma_advanced_refl, lemma_advanced_trans,
    lemma_needed_extends, lemma_shape_kept, logged, needed, settled_from, steady,
};
use crate::graph::layered;
use crate::graph::{
    coherent_at, grounded, lemma_coherent_agrees, lemma_heeded_kept, lemma_unmet_kept, outcome,
    quiet, sound, within, BoundarySpec, Graph, GraphSpec, NodeSpec, Phase,
};
use crate::read::copy_ids;
use crate::rewire::keeps;

use crate::value::{Fault, NodeId};

verus! {

/// What one pass did.
#[derive(Debug, PartialEq, Eq)]
pub struct Pass {
    /// The nodes that were evaluated, in the order in which they settled:
    /// each after whatever it depends on.
    pub order: Vec<NodeId>,
    /// The change callbacks to fire now, each once.
    pub callbacks: Vec<usize>,
    /// The boundaries that must aggregate anew.
    pub boundaries: Vec<usize>,
}

/// Among the first `k` callbacks, those whose node was touched, in order.
pub open spec fn due<D>(watchers: Seq<NodeId>, nodes: Seq<NodeSpec<D>>, k: int) -> Seq<usize>
    decreases k,
{
    if k <= 0 {
        Seq::empty()
    } else if nodes[watchers[k - 1] as int].touched {
        due(watchers, nodes, k - 1).push((k - 1) as usize)
    } else {
        due(watchers, nodes, k - 1)
    }
}

/// The boundary observes a node that was touched.
pub open spec fn stirred<D>(boundary: BoundarySpec, nodes: Seq<NodeSpec<D>>) -> bool {
    exists|x: NodeId| #[trigger] boundary.observed.contains(x) && nodes[x as int].touched
}

/// Among the first `k` boundaries, those that observe a touched node, in order.
pub open spec fn roused<D>(boundaries: Seq<BoundarySpec>, nodes: Seq<NodeSpec<D>>, k: int) -> Seq<
    usize,
>
    decreases k,
{
    if k <= 0 {
        Seq::empty()
    } else if stirred(boundaries[k - 1], nodes) {
        roused(boundaries, nodes, k - 1).push((k - 1) as usize)
    } else {
        roused(boundaries, nodes, k - 1)
    }
}

/// The nodes `s` with the touch marks of `from`.
pub open spec fn with_touch<D>(s: Seq<NodeSpec<D>>, from: Seq<NodeSpec<D>>) -> Seq<NodeSpec<D>> {
    Seq::new(s.len(), |k: int| NodeSpec { touched: from[k].touched, ..s[k] })
}

/// Graph `b` is what a pass that succeeded made of graph `a`: evaluation
/// alone led from one to the other, every node that was invalidated is
/// clean again, and no node is touched any more.
pub open spec fn passed<D>(a: GraphSpec<D>, b: GraphSpec<D>) -> bool {
    &&& advanced(
        GraphSpec { journal: Seq::empty(), ..a },
        GraphSpec { nodes: with_touch(b.nodes, a.nodes), ..b },
    )
    &&& b.frames == a.frames
    &&& forall|k: int| 0 <= k < b.nodes.len() ==> !(#[trigger] b.nodes[k]).touched
    &&& forall|k: int|
        0 <= k < a.nodes.len() && (#[trigger] a.nodes[k]).touched && a.nodes[k].phase is Dirty
            ==> b.nodes[k].phase is Clean
}

/// The nodes that wait for the next pass: invalidated and still dirty.
pub open spec fn waiting<D>(s: Seq<NodeSpec<D>>) -> Set<NodeId> {
    Set::new(|k: NodeId| k < s.len() && s[k as int].touched && s[k as int].phase is Dirty)
}

/// Touch marks have no part in the soundness of the graph.
pub proof fn lemma_touch_sound<D: Derivation>(s: Seq<NodeSpec<D>>, t: Seq<NodeSpec<D>>)
    requires
        sound(s),
        t.len() == s.len(),
        forall|k: int| 0 <= k < s.len() ==> #[trigger] t[k] == (NodeSpec { touched: t[k].touched, ..s[k] }),
    ensures
        sound(t),
        quiet(s) ==> quiet(t),
        forall|journal: Seq<NodeId>| logged(s, journal) ==> #[trigger] logged(t, journal),
{
    lemma_shape_kept(s, t);
    lemma_unmet_kept(s, t);
    assert(grounded(t)) by {
        assert forall|k: int, d: NodeId|
            0 <= k < t.len() && t[k].phase is Clean && #[trigger] t[k].deps.contains(
                d,
            ) implies t[d as int].phase is Clean by {
            assert(s[k].deps.contains(d));
            assert(within(s[k].deps, s.len()));
        }
    }
    assert forall|k: int| 0 <= k < t.len() implies #[trigger] coherent_at(t, k) by {
        assert(coherent_at(s, k));
        assert forall|d: NodeId| #[trigger] s[k].deps.contains(d) implies outcome(s[d as int])
            == outcome(t[d as int]) by {
            assert(within(s[k].deps, s.len()));
        }
        lemma_coherent_agrees(s, t, k);
    }
    if quiet(s) {
        assert forall|n: int| 0 <= n < t.len() implies !((#[trigger] t[n]).phase is Running) by {
            assert(!(s[n].phase is Running));
        }
    }
    assert forall|journal: Seq<NodeId>| logged(s, journal) implies #[trigger] logged(t, journal) by {
        assert forall|i: int| 0 <= i < journal.len() implies (#[trigger] journal[i]) < t.len()
            && t[journal[i] as int].phase is Clean by {
            assert(s[journal[i] as int].phase is Clean);
        }
        assert forall|i: int, j: int| 0 <= i < j < journal.len() implies !t[#[trigger] journal[i] as int].deps.contains(
            #[trigger] journal[j],
        ) by {
            assert(s[journal[i] as int].phase is Clean);
        }
    }
}

impl<D: Derivation> Graph<D> {
    /// The change callbacks whose node was touched.
    fn due_callbacks(&self) -> (list: Vec<usize>)
        requires
            within(self@.watchers, self@.nodes.len()),
        ensures
            list@ == due(self@.watchers, self@.nodes, self@.watchers.len() as int),
    {
        let mut list: Vec<usize> = Vec::new();
        let mut k: usize = 0;
        while k < self.watchers.len()
            invariant
                k <= self@.watchers.len(),
                within(self@.watchers, self@.nodes.len()),
                list@ == due(self@.watchers, self@.nodes, k as int),
            decreases self@.watchers.len() - k,
        {
            let node: NodeId = self.watchers[k];
            assert(self@.watchers.contains(node));
            if self.nodes[node].touched {
                list.push(k);
            }
            k += 1;
        }
        list
    }

    /// Whether a touched node is among `observed`.
    fn any_touched(&self, observed: &Vec<NodeId>) -> (r: bool)
        requires
            within(observed@, self@.nodes.len()),
        ensures
            r == exists|x: NodeId| #[trigger] observed@.contains(x) && self@.nodes[x as int].touched,
    {
        let mut i: usize = 0;
        while i < observed.len()
            invariant
                i <= observed@.len(),
                within(observed@, self@.nodes.len()),
                forall|j: int| 0 <= j < i ==> !self@.nodes[(#[trigger] observed@[j]) as int].touched,
            decreases observed@.len() - i,
        {
            let x: NodeId = observed[i];
            assert(observed@.contains(x));
            if self.nodes[x].touched {
                return true;
            }
            i += 1;
        }
        false
    }

    /// The boundaries that observe a touched node.
    fn roused_boundaries(&self) -> (list: Vec<usize>)
        requires
            forall|b: int|
                0 <= b < self@.boundaries.len() ==> within(
                    (#[trigger] self@.boundaries[b]).observed,
                    self@.nodes.len(),
                ),
        ensures
            list@ == roused(self@.boundaries, self@.nodes, self@.boundaries.len() as int),
    {
        let mut list: Vec<usize> = Vec::new();
        let mut k: usize = 0;
        while k < self.boundaries.len()
            invariant
                k <= self@.boundaries.len(),
                forall|b: int|
                    0 <= b < self@.boundaries.len() ==> within(
                        (#[trigger] self@.boundaries[b]).observed,
                        self@.nodes.len(),
                    ),
                list@ == roused(self@.boundaries, self@.nodes, k as int),
            decreases self@.boundaries.len() - k,
        {
            assert(self@.boundaries[k as int].observed == self.boundaries@[k as int].observed@);
            if self.any_touched(&self.boundaries[k].observed) {
                list.push(k);
            }
            k += 1;
        }
        list
    }

    /// Takes the touch mark off every node.
    fn rest(&mut self)
        ensures
            final(self)@ == (GraphSpec {
                nodes: with_touch(
                    old(self)@.nodes,
                    Seq::new(
                        old(self)@.nodes.len(),
                        |k: int| NodeSpec { touched: false, ..old(self)@.nodes[k] },
                    ),
                ),
                ..old(self)@
            }),
    {
        let mut k: usize = 0;
        while k < self.nodes.len()
            invariant
                k <= self@.nodes.len(),
                self@ == (GraphSpec { nodes: self@.nodes, ..old(self)@ }),
                self@.nodes.len() == old(self)@.nodes.len(),
                forall|j: int|
                    0 <= j < self@.nodes.len() ==> #[trigger] self@.nodes[j] == if j < k {
                        NodeSpec { touched: false, ..old(self)@.nodes[j] }
                    } else {
                        old(self)@.nodes[j]
                    },
            decreases self@.nodes.len() - k,
        {
            let ghost before = self@;
            self.nodes[k].touched = false;
            k += 1;
            proof {
                assert(self@.nodes =~= before.nodes.update(
                    k - 1,
                    NodeSpec { touched: false, ..before.nodes[k - 1] },
                ));
                assert(self@.boundaries =~= before.boundaries);
                assert(self@.outbox =~= before.outbox);
            }
        }
        proof {
            assert(self@.nodes =~= with_touch(
                old(self)@.nodes,
                Seq::new(
                    old(self)@.nodes.len(),
                    |k: int| NodeSpec { touched: false, ..old(self)@.nodes[k] },
                ),
            ));
        }
    }

    /// Runs one pass. Every node that was invalidated since the last pass
    /// and is still dirty is evaluated, once, after whatever it depends on;
    /// then the pass names the change callbacks and the boundaries whose
    /// nodes were touched, and takes the touch marks off.
    ///
    /// A fault that abandons an evaluation ends the pass at once: nothing
    /// is notified, and the touch marks stay.
    pub fn flush(&mut self) -> (r: Result<Pass, Fault>)
        requires
            old(self).wf(),
        ensures
            final(self).wf(),
            final(self)@.frames == old(self)@.frames,
            logged(final(self)@.nodes, final(self)@.journal),
            match r {
                Ok(pass) => {
                    &&& passed(old(self)@, final(self)@)
                    &&& pass.order@ == final(self)@.journal
                    &&& needed(
                        final(self)@.nodes,
                        final(self)@.journal,
                        0,
                        waiting(old(self)@.nodes),
                    )
                    &&& pass.callbacks@ == due(
                        old(self)@.watchers,
                        old(self)@.nodes,
                        old(self)@.watchers.len() as int,
                    )
                    &&& pass.boundaries@ == roused(
                        old(self)@.boundaries,
                        old(self)@.nodes,
                        old(self)@.boundaries.len() as int,
                    )
                },
                Err(f) => {
                    &&& advanced(GraphSpec { journal: Seq::empty(), ..old(self)@ }, final(self)@)
                    &&& f@ is Cyclic
                    &&& exists|k: NodeId|
                        k < old(self)@.nodes.len() && old(self)@.nodes[k as int].touched
                            && final(self)@.nodes[k as int].phase is Dirty && #[trigger] cyclic(
                            final(self)@.nodes,
                            k,
                            f@->Cyclic_0,
                        )
                },
            },
            layered(old(self)@.nodes) ==> r is Ok,
    {
        self.journal.clear();
        let ghost start = self@;
        proof {
            assert(start.boundaries =~= old(self)@.boundaries);
            assert(start.outbox =~= old(self)@.outbox);
            assert(start == (GraphSpec { journal: Seq::empty(), ..old(self)@ }));
            lemma_heeded_kept(old(self)@, start);
            lemma_advanced_refl(start);
        }
        let mut k: usize = 0;
        while k < self.nodes.len()
            invariant
                old(self).wf(),
                start == (GraphSpec { journal: Seq::empty(), ..old(self)@ }),
                k <= self@.nodes.len(),
                steady(self@),
                advanced(start, self@),
                needed(self@.nodes, self@.journal, 0, waiting(start.nodes)),
                self@.frames == start.frames,
                forall|j: int|
                    0 <= j < k && (#[trigger] start.nodes[j]).touched && start.nodes[j].phase is Dirty
                        ==> self@.nodes[j].phase is Clean,
            decreases self@.nodes.len() - k,
        {
            let ghost g = self@;
            proof {
                lemma_advanced_count(start, g);
                assert(keeps(start.nodes[k as int], g.nodes[k as int]) || settled_from(
                    start.nodes[k as int],
                    g.nodes[k as int],
                    g.nodes,
                ));
            }
            if self.nodes[k].touched && self.phase_of(k) == Phase::Dirty {
                match self.evaluate(k) {
                    Err(fault) => {
                        proof {
                            lemma_advanced_trans(start, g, self@);
                            lemma_advanced_count(start, self@);
                            lemma_trapped_is_cyclic(self@.nodes, k, fault@->Cyclic_0);
                            assert(cyclic(self@.nodes, k, fault@->Cyclic_0));
                        }
                        return Err(fault);
                    },
                    Ok(()) => {},
                }
                proof {
                    let h = self@;
                    assert forall|i: int| 0 <= i < g.journal.len() implies h.nodes[(
                    #[trigger] g.journal[i]) as int].deps == g.nodes[g.journal[i] as int].deps by {
                        let e = g.journal[i] as int;
                        assert(g.nodes[e].phase is Clean);
                        assert(keeps(g.nodes[e], h.nodes[e]) || settled_from(g.nodes[e], h.nodes[e], h.nodes));
                    }
                    assert(needed(h.nodes, h.journal, g.journal.len() as int, waiting(start.nodes))) by {
                        assert forall|i: int| g.journal.len() <= i < h.journal.len() implies waiting(
                            start.nodes,
                        ).contains(#[trigger] h.journal[i]) || exists|j: int| #[trigger]
                            feeds(h.nodes, h.journal, i, j) by {
                            assert(set![k].contains(h.journal[i]) || exists|j: int| #[trigger]
                                feeds(h.nodes, h.journal, i, j));
                        }
                    }
                    lemma_needed_extends(
                        g.nodes,
                        h.nodes,
                        g.journal,
                        h.journal,
                        0,
                        waiting(start.nodes),
                        waiting(start.nodes),
                    );
                    lemma_advanced_trans(start, g, self@);
                    assert forall|j: int|
                        0 <= j < k && (#[trigger] start.nodes[j]).touched
                            && start.nodes[j].phase is Dirty implies self@.nodes[j].phase is Clean by {
                        assert(keeps(g.nodes[j], self@.nodes[j]) || settled_from(
                            g.nodes[j],
                            self@.nodes[j],
                            self@.nodes,
                        ));
                    }
                }
            }
            k += 1;
        }
        let ghost mid = self@;
        let callbacks = self.due_callbacks();
        let boundaries = self.roused_boundaries();
        self.rest();
        let order = copy_ids(&self.journal);
        proof {
            let end = self@;
            lemma_advanced_count(start, mid);
            lemma_touch_sound(mid.nodes, end.nodes);
            lemma_heeded_kept(mid, end);
            assert(with_touch(end.nodes, start.nodes) =~= mid.nodes) by {
                assert forall|j: int| 0 <= j < mid.nodes.len() implies with_touch(
                    end.nodes,
                    start.nodes,
                )[j] == mid.nodes[j] by {
                    assert(keeps(start.nodes[j], mid.nodes[j]) || settled_from(
                        start.nodes[j],
                        mid.nodes[j],
                        mid.nodes,
                    ));
                }
            }
            assert((GraphSpec { nodes: with_touch(end.nodes, start.nodes), ..end }) == mid);
            assert(waiting(start.nodes) =~= waiting(old(self)@.nodes));
            assert(needed(end.nodes, end.journal, 0, waiting(start.nodes))) by {
                assert forall|i: int| 0 <= i < end.journal.len() implies waiting(start.nodes).contains(
                    #[trigger] end.journal[i],
                ) || exists|j: int| #[trigger] feeds(end.nodes, end.journal, i, j) by {
                    if !waiting(start.nodes).contains(mid.journal[i]) {
                        let j = choose|j: int| #[trigger] feeds(mid.nodes, mid.journal, i, j);
                        assert(feeds(end.nodes, end.journal, i, j));
                    }
                }
            }
            lemma_due_same(start.watchers, start.nodes, mid.nodes, start.watchers.len() as int);
            lemma_roused_same(start.boundaries, start.nodes, mid.nodes, start.boundaries.len() as int);
        }
        Ok(Pass { order, callbacks, boundaries })
    }
}

/// Who is due depends on the touch marks alone.
pub proof fn lemma_due_same<D>(
    watchers: Seq<NodeId>,
    s: Seq<NodeSpec<D>>,
    t: Seq<NodeSpec<D>>,
    k: int,
)
    requires
        s.len() == t.len(),
        within(watchers, s.len()),
        k <= watchers.len(),
        forall|j: int| 0 <= j < s.len() ==> (#[trigger] s[j]).touched == t[j].touched,
    ensures
        due(watchers, s, k) == due(watchers, t, k),
    decreases k,
{
    if k > 0 {
        lemma_due_same(watchers, s, t, k - 1);
        assert(watchers.contains(watchers[k - 1]));
    }
}

/// Which boundaries are roused depends on the touch marks alone.
pub proof fn lemma_roused_same<D>(
    boundaries: Seq<BoundarySpec>,
    s: Seq<NodeSpec<D>>,
    t: Seq<NodeSpec<D>>,
    k: int,
)
    requires
        s.len() == t.len(),
        k <= boundaries.len(),
        forall|b: int| 0 <= b < boundaries.len() ==> within((#[trigger] boundaries[b]).observed, s.len()),
        forall|j: int| 0 <= j < s.len() ==> (#[trigger] s[j]).touched == t[j].touched,
    ensures
        roused(boundaries, s, k) == roused(boundaries, t, k),
    decreases k,
{
    if k > 0 {
        lemma_roused_same(boundaries, s, t, k - 1);
        let b = boundaries[k - 1];
        assert(within(b.observed, s.len()));
        if stirred(b, s) {
            let x = choose|x: NodeId| #[trigger] b.observed.contains(x) && s[x as int].touched;
            assert(b.observed.contains(x) && t[x as int].touched);
        }
        if stirred(b, t) {
            let x = choose|x: NodeId| #[trigger] b.observed.contains(x) && t[x as int].touched;
            assert(b.observed.contains(x) && s[x as int].touched);
        }
    }
}

} // verus!
