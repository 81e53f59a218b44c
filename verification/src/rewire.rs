//! Re-tracking: after an evaluation a node is subscribed to exactly the
//! nodes that the evaluation read, and to no node that it read before.

use vstd::prelude::*;
use crate::derivation::Derivation;
use crate::graph::{linked, shaped, within, Graph, GraphSpec, NodeSpec};
use crate::value::NodeId;

verus! {

/// Two states of a node differ at most in who is subscribed to it.
pub open spec fn keeps<D>(a: NodeSpec<D>, b: NodeSpec<D>) -> bool {
    b == (NodeSpec { subs: b.subs, ..a })
}

/// A list that names each of `len` nodes at most once is no longer than `len`.
pub proof fn lemma_distinct_bounded(list: Seq<NodeId>, len: nat)
    requires
        list.no_duplicates(),
        within(list, len),
    ensures
        list.len() <= len,
    decreases len,
{
    if list.len() > 0 {
        assert(list.contains(list[0]));
        let top = (len - 1) as NodeId;
        if list.contains(top) {
            let i = choose|i: int| 0 <= i < list.len() && list[i] == top;
            let rest = list.remove(i);
            assert forall|x: NodeId| #[trigger] rest.contains(x) implies x < len - 1 by {
                let j = choose|j: int| 0 <= j < rest.len() && rest[j] == x;
                let k = if j < i { j } else { j + 1 };
                assert(list[k] == x);
                assert(list.contains(x));
            }
            lemma_distinct_bounded(rest, (len - 1) as nat);
        } else {
            assert forall|x: NodeId| #[trigger] list.contains(x) implies x < len - 1 by {}
            lemma_distinct_bounded(list, (len - 1) as nat);
        }
    }
}

/// Takes `x` out of a list that holds nothing twice.
#[verifier::loop_isolation(false)]
pub fn drop_value(list: &mut Vec<NodeId>, x: NodeId)
    requires
        old(list)@.no_duplicates(),
    ensures
        final(list)@.no_duplicates(),
        forall|y: NodeId| #[trigger] final(list)@.contains(y) <==> old(list)@.contains(y) && y != x,
{
    let mut i: usize = 0;
    while i < list.len()
        invariant
            i <= list@.len(),
            list@ == old(list)@,
            forall|j: int| 0 <= j < i ==> list@[j] != x,
        decreases list@.len() - i,
    {
        if list[i] == x {
            list.remove(i);
            proof {
                let before = old(list)@;
                let after = list@;
                assert(after == before.remove(i as int));
                assert(after.no_duplicates()) by {
                    assert forall|a: int, b: int|
                        0 <= a < after.len() && 0 <= b < after.len() && a != b implies after[a]
                        != after[b] by {
                        let a2 = if a < i { a } else { a + 1 };
                        let b2 = if b < i { b } else { b + 1 };
                        assert(before[a2] != before[b2]);
                    }
                }
                assert forall|y: NodeId| #[trigger] after.contains(y) <==> before.contains(y) && y
                    != x by {
                    if after.contains(y) {
                        let j = choose|j: int| 0 <= j < after.len() && after[j] == y;
                        let k = if j < i { j } else { j + 1 };
                        assert(before[k] == y);
                    }
                    if before.contains(y) && y != x {
                        let k = choose|k: int| 0 <= k < before.len() && before[k] == y;
                        let j = if k < i { k } else { k - 1 };
                        assert(after[j] == y);
                    }
                }
            }
            return ;
        }
        i += 1;
    }
}

impl<D: Derivation> Graph<D> {
    /// Ends every subscription of node `n`: it depends on nothing afterwards.
    #[verifier::loop_isolation(false)]
    pub(crate) fn unsubscribe(&mut self, n: NodeId)
        requires
            shaped(old(self)@.nodes),
            linked(old(self)@.nodes),
            n < old(self)@.nodes.len(),
        ensures
            final(self)@ == (GraphSpec { nodes: final(self)@.nodes, ..old(self)@ }),
            final(self)@.nodes.len() == old(self)@.nodes.len(),
            shaped(final(self)@.nodes),
            linked(final(self)@.nodes),
            forall|k: int|
                0 <= k < old(self)@.nodes.len() ==> #[trigger] final(self)@.nodes[k] == (NodeSpec {
                    deps: if k == n {
                        Seq::empty()
                    } else {
                        old(self)@.nodes[k].deps
                    },
                    subs: final(self)@.nodes[k].subs,
                    ..old(self)@.nodes[k]
                }),
            forall|k: int, x: NodeId|
                0 <= k < old(self)@.nodes.len() ==> (#[trigger] final(self)@.nodes[k].subs.contains(x)
                    <==> old(self)@.nodes[k].subs.contains(x) && x != n),
    {
        let ghost s0 = self@.nodes;
        let ghost gone = s0[n as int].deps;
        let count: usize = self.nodes[n].deps.len();
        let mut i: usize = 0;
        while i < count
            invariant
                i <= count,
                count == gone.len(),
                self@ == (GraphSpec { nodes: self@.nodes, ..old(self)@ }),
                self@.nodes.len() == s0.len(),
                forall|k: int|
                    0 <= k < s0.len() ==> #[trigger] self@.nodes[k] == (NodeSpec {
                        subs: self@.nodes[k].subs,
                        ..s0[k]
                    }),
                forall|k: int| 0 <= k < s0.len() ==> (#[trigger] self@.nodes[k]).subs.no_duplicates(),
                forall|k: int, x: NodeId|
                    0 <= k < s0.len() ==> (#[trigger] self@.nodes[k].subs.contains(x)
                        <==> s0[k].subs.contains(x) && (x != n || !gone.subrange(0, i as int).contains(
                        k as NodeId,
                    ))),
            decreases count - i,
        {
            assert(self@.nodes[n as int] == (NodeSpec { subs: self@.nodes[n as int].subs, ..s0[n as int] }));
            assert(self.nodes@[n as int]@.deps == gone);
            let d: NodeId = self.nodes[n].deps[i];
            assert(gone[i as int] == d);
            assert(gone.contains(d));
            assert(d < s0.len());
            let ghost before = self@.nodes;
            assert(before[d as int].subs.no_duplicates());
            assert(self.nodes@[d as int]@.subs == before[d as int].subs);
            drop_value(&mut self.nodes[d].subs, n);
            i += 1;
            proof {
                let after = self@.nodes;
                assert forall|k: int| 0 <= k < s0.len() implies #[trigger] after[k] == (NodeSpec {
                    subs: after[k].subs,
                    ..s0[k]
                }) by {
                    assert(before[k] == (NodeSpec { subs: before[k].subs, ..s0[k] }));
                }
                assert forall|k: int| 0 <= k < s0.len() implies (#[trigger] after[k]).subs.no_duplicates() by {
                    assert(before[k].subs.no_duplicates());
                }
                assert forall|k: int, x: NodeId| 0 <= k < s0.len() implies (
                #[trigger] after[k].subs.contains(x) <==> s0[k].subs.contains(x) && (x != n
                    || !gone.subrange(0, i as int).contains(k as NodeId))) by {
                    assert(before[k].subs.contains(x) <==> s0[k].subs.contains(x) && (x != n
                        || !gone.subrange(0, i - 1).contains(k as NodeId)));
                    let shorter = gone.subrange(0, i - 1);
                    let longer = gone.subrange(0, i as int);
                    assert(longer =~= shorter.push(d));
                    if k == d {
                        assert(longer[i - 1] == d);
                    } else {
                        assert(after[k] == before[k]);
                        if longer.contains(k as NodeId) {
                            let j = choose|j: int| 0 <= j < longer.len() && longer[j] == k as NodeId;
                            assert(shorter[j] == k as NodeId);
                        }
                        if shorter.contains(k as NodeId) {
                            let j = choose|j: int|
                                0 <= j < shorter.len() && shorter[j] == k as NodeId;
                            assert(longer[j] == k as NodeId);
                        }
                    }
                }
                assert(self@.boundaries =~= old(self)@.boundaries);
                assert(self@.outbox =~= old(self)@.outbox);
            }
        }
        let ghost mid = self@.nodes;
        self.nodes[n].deps = Vec::new();
        proof {
            let after = self@.nodes;
            assert(gone.subrange(0, i as int) =~= gone);
            assert forall|k: int| 0 <= k < s0.len() implies #[trigger] after[k] == (NodeSpec {
                deps: if k == n {
                    Seq::empty()
                } else {
                    s0[k].deps
                },
                subs: after[k].subs,
                ..s0[k]
            }) by {
                assert(mid[k] == (NodeSpec { subs: mid[k].subs, ..s0[k] }));
                if k == n {
                    assert(after[k].deps =~= Seq::empty());
                }
            }
            assert forall|k: int, x: NodeId| 0 <= k < s0.len() implies (
            #[trigger] after[k].subs.contains(x) <==> s0[k].subs.contains(x) && x != n) by {
                assert(after[k].subs == mid[k].subs);
                assert(mid[k].subs.contains(x) <==> s0[k].subs.contains(x) && (x != n
                    || !gone.contains(k as NodeId)));
                assert(s0[n as int].deps.contains(k as NodeId) <==> s0[k as NodeId as int].subs.contains(n));
            }
            assert(shaped(after)) by {
                assert forall|k: int| 0 <= k < after.len() implies {
                    &&& within((#[trigger] after[k]).deps, after.len())
                    &&& after[k].deps.no_duplicates()
                    &&& within(after[k].subs, after.len())
                    &&& after[k].subs.no_duplicates()
                } by {
                    assert(within(s0[k].deps, s0.len()));
                    assert(within(s0[k].subs, s0.len()));
                    assert(mid[k].subs.no_duplicates());
                    assert forall|x: NodeId| #[trigger] after[k].subs.contains(x) implies x
                        < after.len() by {
                        assert(s0[k].subs.contains(x));
                    }
                }
            }
            assert(linked(after)) by {
                assert forall|a: NodeId, d: NodeId| a < after.len() && d < after.len() implies (
                after[a as int].deps.contains(d) <==> #[trigger] after[d as int].subs.contains(a)) by {
                    assert(s0[a as int].deps.contains(d) <==> s0[d as int].subs.contains(a));
                    assert(after[d as int].subs.contains(a) <==> s0[d as int].subs.contains(a) && a
                        != n);
                }
            }
            assert(self@.boundaries =~= old(self)@.boundaries);
            assert(self@.outbox =~= old(self)@.outbox);
        }
    }

    /// Subscribes node `n`, which depends on nothing, to each of `reads`.
    #[verifier::loop_isolation(false)]
    pub(crate) fn subscribe(&mut self, n: NodeId, reads: Vec<NodeId>)
        requires
            shaped(old(self)@.nodes),
            linked(old(self)@.nodes),
            n < old(self)@.nodes.len(),
            old(self)@.nodes[n as int].deps.len() == 0,
            within(reads@, old(self)@.nodes.len()),
            reads@.no_duplicates(),
        ensures
            final(self)@ == (GraphSpec { nodes: final(self)@.nodes, ..old(self)@ }),
            final(self)@.nodes.len() == old(self)@.nodes.len(),
            shaped(final(self)@.nodes),
            linked(final(self)@.nodes),
            forall|k: int|
                0 <= k < old(self)@.nodes.len() ==> #[trigger] final(self)@.nodes[k] == (NodeSpec {
                    deps: if k == n {
                        reads@
                    } else {
                        old(self)@.nodes[k].deps
                    },
                    subs: final(self)@.nodes[k].subs,
                    ..old(self)@.nodes[k]
                }),
    {
        let ghost s0 = self@.nodes;
        let ghost wanted = reads@;
        let mut i: usize = 0;
        proof {
            assert forall|k: int| 0 <= k < s0.len() implies !s0[k].subs.contains(n) by {
                assert(s0[n as int].deps.contains(k as NodeId) <==> s0[k as NodeId as int].subs.contains(n));
            }
        }
        while i < reads.len()
            invariant
                i <= reads@.len(),
                reads@ == wanted,
                self@ == (GraphSpec { nodes: self@.nodes, ..old(self)@ }),
                self@.nodes.len() == s0.len(),
                forall|k: int|
                    0 <= k < s0.len() ==> #[trigger] self@.nodes[k] == (NodeSpec {
                        subs: self@.nodes[k].subs,
                        ..s0[k]
                    }),
                forall|k: int| 0 <= k < s0.len() ==> (#[trigger] self@.nodes[k]).subs.no_duplicates(),
                forall|k: int, x: NodeId|
                    0 <= k < s0.len() ==> (#[trigger] self@.nodes[k].subs.contains(x)
                        <==> s0[k].subs.contains(x) || (x == n && wanted.subrange(0, i as int).contains(
                        k as NodeId,
                    ))),
            decreases reads@.len() - i,
        {
            let d: NodeId = reads[i];
            assert(wanted.contains(d));
            assert(d < s0.len());
            let ghost before = self@.nodes;
            self.nodes[d].subs.push(n);
            i += 1;
            proof {
                let after = self@.nodes;
                let shorter = wanted.subrange(0, i - 1);
                let longer = wanted.subrange(0, i as int);
                assert(longer =~= shorter.push(d));
                assert(!shorter.contains(d)) by {
                    if shorter.contains(d) {
                        let j = choose|j: int| 0 <= j < shorter.len() && shorter[j] == d;
                        assert(wanted[j] == d && wanted[i - 1] == d);
                    }
                }
                assert(!before[d as int].subs.contains(n));
                assert(after[d as int].subs =~= before[d as int].subs.push(n));
                assert forall|k: int| 0 <= k < s0.len() implies #[trigger] after[k] == (NodeSpec {
                    subs: after[k].subs,
                    ..s0[k]
                }) by {
                    assert(before[k] == (NodeSpec { subs: before[k].subs, ..s0[k] }));
                }
                assert forall|k: int| 0 <= k < s0.len() implies (#[trigger] after[k]).subs.no_duplicates() by {
                    assert(before[k].subs.no_duplicates());
                }
                assert forall|k: int, x: NodeId| 0 <= k < s0.len() implies (
                #[trigger] after[k].subs.contains(x) <==> s0[k].subs.contains(x) || (x == n
                    && longer.contains(k as NodeId))) by {
                    assert(before[k].subs.contains(x) <==> s0[k].subs.contains(x) || (x == n
                        && shorter.contains(k as NodeId)));
                    if k == d {
                        assert(longer[i - 1] == d);
                        let old_subs = before[d as int].subs;
                        if after[k].subs.contains(x) {
                            let j = choose|j: int| 0 <= j < after[k].subs.len() && after[k].subs[j] == x;
                            if j < old_subs.len() {
                                assert(old_subs[j] == x);
                            }
                        }
                        if old_subs.contains(x) {
                            let j = choose|j: int| 0 <= j < old_subs.len() && old_subs[j] == x;
                            assert(after[k].subs[j] == x);
                        }
                        assert(after[k].subs[old_subs.len() as int] == n);
                    } else {
                        assert(after[k] == before[k]);
                        if longer.contains(k as NodeId) {
                            let j = choose|j: int| 0 <= j < longer.len() && longer[j] == k as NodeId;
                            assert(shorter[j] == k as NodeId);
                        }
                        if shorter.contains(k as NodeId) {
                            let j = choose|j: int|
                                0 <= j < shorter.len() && shorter[j] == k as NodeId;
                            assert(longer[j] == k as NodeId);
                        }
                    }
                }
                assert(self@.boundaries =~= old(self)@.boundaries);
                assert(self@.outbox =~= old(self)@.outbox);
            }
        }
        let ghost mid = self@.nodes;
        self.nodes[n].deps = reads;
        proof {
            let after = self@.nodes;
            assert(wanted.subrange(0, i as int) =~= wanted);
            assert forall|k: int| 0 <= k < s0.len() implies #[trigger] after[k] == (NodeSpec {
                deps: if k == n {
                    wanted
                } else {
                    s0[k].deps
                },
                subs: after[k].subs,
                ..s0[k]
            }) by {
                assert(mid[k] == (NodeSpec { subs: mid[k].subs, ..s0[k] }));
            }
            assert(shaped(after)) by {
                assert forall|k: int| 0 <= k < after.len() implies {
                    &&& within((#[trigger] after[k]).deps, after.len())
                    &&& after[k].deps.no_duplicates()
                    &&& within(after[k].subs, after.len())
                    &&& after[k].subs.no_duplicates()
                } by {
                    assert(within(s0[k].deps, s0.len()));
                    assert(within(s0[k].subs, s0.len()));
                    assert(mid[k].subs.no_duplicates());
                    assert(after[k].subs == mid[k].subs);
                    assert forall|x: NodeId| #[trigger] after[k].subs.contains(x) implies x
                        < after.len() by {
                        assert(mid[k].subs.contains(x) <==> s0[k].subs.contains(x) || (x == n
                            && wanted.contains(k as NodeId)));
                    }
                }
            }
            assert(linked(after)) by {
                assert forall|a: NodeId, d: NodeId| a < after.len() && d < after.len() implies (
                after[a as int].deps.contains(d) <==> #[trigger] after[d as int].subs.contains(a)) by {
                    assert(s0[a as int].deps.contains(d) <==> s0[d as int].subs.contains(a));
                    assert(after[d as int].subs == mid[d as int].subs);
                    assert(mid[d as int].subs.contains(a) <==> s0[d as int].subs.contains(a) || (a
                        == n && wanted.contains(d as int as NodeId)));
                    if a == n {
                        assert(s0[n as int].deps =~= Seq::<NodeId>::empty());
                    }
                }
            }
            assert(self@.boundaries =~= old(self)@.boundaries);
            assert(self@.outbox =~= old(self)@.outbox);
        }
    }
}

} // verus!
