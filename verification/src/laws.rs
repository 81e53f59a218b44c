//! What holds of the graph as a whole, proved from the contracts of its
//! operations.

use vstd::prelude::*;
use crate::boundary::{aggregate, failures, falls_back, AggregateSpec, FailureSpec};
use crate::derivation::{Derivation, Formula, StepSpec};
use crate::progress::{logged, refreshed, restarts, settled_from};
use crate::graph::{
    coherent_at, concluded, ended, handed, layered, lemma_layered_same, quiet, reads_below, replays,
    sound, BoundaryKind, GraphSpec, NodeSpec, Role,
};
use crate::meaning::{lemma_clean_is_meant, meaning};
use crate::invalidate::{lemma_reach_last, lemma_written_sound, reaches, written};
use crate::resource::{awaits, completed};
use crate::rewire::keeps;
use crate::schedule::{passed, with_touch};
use crate::value::{FaultSpec, NodeId, StatusSpec, ValueSpec};

verus! {

/// One write of a batch: the cell and the value.
pub ghost struct WriteSpec {
    pub cell: NodeId,
    pub value: ValueSpec,
}

/// The nodes after a batch of writes, made in order.
pub open spec fn batch<D>(s: Seq<NodeSpec<D>>, writes: Seq<WriteSpec>) -> Seq<NodeSpec<D>>
    decreases writes.len(),
{
    if writes.len() == 0 {
        s
    } else {
        written(batch(s, writes.drop_last()), writes.last().cell as int, writes.last().value)
    }
}

/// The writes of a batch go to cells of the graph, no two to the same cell.
pub open spec fn distinct_cells<D>(s: Seq<NodeSpec<D>>, writes: Seq<WriteSpec>) -> bool {
    &&& forall|i: int|
        0 <= i < writes.len() ==> (#[trigger] writes[i]).cell < s.len() && s[writes[i].cell as int].role is Cell
    &&& forall|i: int, j: int|
        0 <= i < j < writes.len() ==> (#[trigger] writes[i]).cell != (#[trigger] writes[j]).cell
}

/// What one write does to each node: the written cell holds the value, a
/// clean node that depends on the cell is dirty and touched, and no node
/// becomes clean.
pub proof fn lemma_write_effect<D: Derivation>(s: Seq<NodeSpec<D>>, c: int, value: ValueSpec, k: int)
    requires
        sound(s),
        quiet(s),
        0 <= c < s.len(),
        s[c].role is Cell,
        0 <= k < s.len(),
    ensures
        written(s, c, value).len() == s.len(),
        written(s, c, value)[k].role == s[k].role,
        written(s, c, value)[k].deps == s[k].deps,
        written(s, c, value)[c].status == StatusSpec::Ready(value),
        k != c ==> written(s, c, value)[k].status == s[k].status,
        k != c ==> written(s, c, value)[k].last == s[k].last,
        written(s, c, value)[k].phase is Clean ==> s[k].phase is Clean,
        s[k].phase is Clean && !(written(s, c, value)[k].phase is Clean) ==> written(
            s,
            c,
            value,
        )[k].phase is Dirty && written(s, c, value)[k].touched,
        s[k].phase is Dirty ==> written(s, c, value)[k].phase is Dirty,
        s[k].touched ==> written(s, c, value)[k].touched,
        !reaches(s, c, k) && k != c ==> written(s, c, value)[k] == s[k],
        reaches(s, c, k) ==> !(written(s, c, value)[k].phase is Clean),
{
    assert(coherent_at(s, c));
    assert(!(s[k].phase is Running));
    if reaches(s, c, k) && k == c {
        lemma_reach_last(s, c, k);
        let x = choose|x: NodeId| x < s.len() && #[trigger] s[x as int].subs.contains(k as NodeId);
        assert(s[k as NodeId as int].deps.contains(x) <==> s[x as int].subs.contains(k as NodeId));
    }
}

/// What a batch of writes to distinct cells does: every written cell holds
/// its value, every node that was clean is still clean or is dirty and
/// touched, and the graph is well formed.
pub proof fn lemma_batch_effect<D: Derivation>(s: Seq<NodeSpec<D>>, writes: Seq<WriteSpec>)
    requires
        sound(s),
        quiet(s),
        distinct_cells(s, writes),
    ensures
        sound(batch(s, writes)),
        quiet(batch(s, writes)),
        batch(s, writes).len() == s.len(),
        forall|k: int| 0 <= k < s.len() ==> (#[trigger] batch(s, writes)[k]).role == s[k].role,
        forall|i: int|
            0 <= i < writes.len() ==> batch(s, writes)[(#[trigger] writes[i]).cell as int].status
                == StatusSpec::Ready(writes[i].value),
        forall|k: int|
            0 <= k < s.len() && s[k].phase is Clean ==> (#[trigger] batch(s, writes)[k]).phase is Clean
                || (batch(s, writes)[k].phase is Dirty && batch(s, writes)[k].touched),
    decreases writes.len(),
{
    if writes.len() > 0 {
        let head = writes.drop_last();
        let last = writes.last();
        let m = batch(s, head);
        let t = batch(s, writes);
        assert(distinct_cells(s, head)) by {
            assert forall|i: int| 0 <= i < head.len() implies (#[trigger] head[i]).cell < s.len()
                && s[head[i].cell as int].role is Cell by {
                assert(head[i] == writes[i]);
            }
            assert forall|i: int, j: int| 0 <= i < j < head.len() implies (#[trigger] head[i]).cell != (
            #[trigger] head[j]).cell by {
                assert(head[i] == writes[i] && head[j] == writes[j]);
            }
        }
        lemma_batch_effect(s, head);
        assert(last == writes[writes.len() - 1]);
        let c = last.cell as int;
        assert(m[c].role == s[c].role);
        lemma_written_sound(m, c, last.value);
        assert forall|k: int| 0 <= k < s.len() implies (#[trigger] t[k]).role == s[k].role && (
        s[k].phase is Clean ==> t[k].phase is Clean || (t[k].phase is Dirty && t[k].touched)) by {
            lemma_write_effect(m, c, last.value, k);
            assert(m[k].role == s[k].role);
        }
        assert forall|i: int| 0 <= i < writes.len() implies t[(#[trigger] writes[i]).cell as int].status
            == StatusSpec::Ready(writes[i].value) by {
            lemma_write_effect(m, c, last.value, writes[i].cell as int);
            if i < head.len() {
                assert(head[i] == writes[i]);
                assert(writes[i].cell != writes[writes.len() - 1].cell);
            }
        }
        lemma_write_effect(m, c, last.value, 0);
    }
}

/// Glitch-freedom. After any batch of writes to distinct cells and a pass
/// that succeeds, every written cell holds the value written to it; every
/// node that was up to date before the batch is up to date again; and every
/// computation that is up to date has exactly the status that its derivation
/// yields from what the nodes it read hold now. In a layered graph that is
/// the status that the computation means: the one that comes of running the
/// derivations from scratch on the cells as they are after all the writes.
/// No node that is up to date reflects a state in which only some of the
/// writes had been made.
pub proof fn law_glitch_freedom<D: Derivation>(
    before: GraphSpec<D>,
    writes: Seq<WriteSpec>,
    between: GraphSpec<D>,
    after: GraphSpec<D>,
    n: int,
)
    requires
        before.wf(),
        distinct_cells(before.nodes, writes),
        between == (GraphSpec { nodes: batch(before.nodes, writes), ..before }),
        passed(between, after),
        sound(after.nodes),
        0 <= n < before.nodes.len(),
    ensures
        forall|i: int|
            0 <= i < writes.len() ==> after.nodes[(#[trigger] writes[i]).cell as int].status
                == StatusSpec::Ready(writes[i].value),
        before.nodes[n].phase is Clean ==> after.nodes[n].phase is Clean,
        after.nodes[n].phase is Clean ==> match after.nodes[n].role {
            Role::Computation(d) => {
                &&& replays(d, after.nodes, after.nodes[n].deps)
                &&& ended(d, after.nodes, after.nodes[n].deps)
                &&& after.nodes[n].status == concluded(d, after.nodes, after.nodes[n].deps)
                &&& forall|x: NodeId| #[trigger]
                    after.nodes[n].deps.contains(x) ==> after.nodes[x as int].phase is Clean
            },
            _ => true,
        },
        layered(before.nodes) && after.nodes[n].phase is Clean ==> after.nodes[n].status == meaning(
            after.nodes,
            n,
        ),
{
    lemma_batch_effect(before.nodes, writes);
    if layered(before.nodes) && after.nodes[n].phase is Clean {
        lemma_layered_same(before.nodes, between.nodes);
        assert forall|k: int| 0 <= k < between.nodes.len() implies (#[trigger] between.nodes[k]).role
            == after.nodes[k].role by {
            let mid = with_touch(after.nodes, between.nodes);
            assert(keeps(between.nodes[k], mid[k]) || settled_from(between.nodes[k], mid[k], mid));
        }
        lemma_layered_same(between.nodes, after.nodes);
        lemma_clean_is_meant(after.nodes, n);
    }
    let mid = with_touch(after.nodes, between.nodes);
    assert forall|k: int| 0 <= k < before.nodes.len() implies {
        &&& keeps(between.nodes[k], #[trigger] mid[k]) || settled_from(between.nodes[k], mid[k], mid)
        &&& after.nodes[k].phase == mid[k].phase
        &&& after.nodes[k].status == mid[k].status
    } by {}
    assert forall|i: int| 0 <= i < writes.len() implies after.nodes[(
    #[trigger] writes[i]).cell as int].status == StatusSpec::Ready(writes[i].value) by {
        let c = writes[i].cell as int;
        assert(coherent_at(between.nodes, c));
        assert(keeps(between.nodes[c], mid[c]) || settled_from(between.nodes[c], mid[c], mid));
    }
    assert(keeps(between.nodes[n], mid[n]) || settled_from(between.nodes[n], mid[n], mid));
    assert(coherent_at(after.nodes, n));
}

/// Memoization. In a pass, the nodes evaluated are exactly those that were
/// dirty before it and are clean after it, and each is evaluated once. So a
/// node that was clean when the pass began, none of whose dependencies had
/// changed, is not evaluated at all; and when the pass succeeds, a node that
/// had been invalidated is evaluated exactly once.
pub proof fn law_memoization<D: Derivation>(before: GraphSpec<D>, after: GraphSpec<D>, k: NodeId)
    requires
        passed(before, after),
        logged(after.nodes, after.journal),
        k < before.nodes.len(),
    ensures
        after.journal.no_duplicates(),
        before.nodes[k as int].phase is Clean ==> !after.journal.contains(k),
        before.nodes[k as int].phase is Dirty && before.nodes[k as int].touched
            ==> after.journal.contains(k),
        after.journal.contains(k) ==> before.nodes[k as int].phase is Dirty && after.nodes[k as int].phase is Clean,
{
    let mid = with_touch(after.nodes, before.nodes);
    assert(after.nodes[k as int].phase == mid[k as int].phase);
    assert(Seq::<NodeId>::empty().contains(k) == false);
}

/// A write invalidates exactly what depends on the cell: a clean node that
/// does not depend on it, directly or through other nodes, stays as it is,
/// and so is not evaluated by the pass that follows; a clean node that
/// depends on it is dirty and touched, and so is evaluated by that pass.
pub proof fn law_write_reaches_dependents<D: Derivation>(
    s: Seq<NodeSpec<D>>,
    cell: int,
    value: ValueSpec,
    k: int,
)
    requires
        sound(s),
        quiet(s),
        0 <= cell < s.len(),
        s[cell].role is Cell,
        0 <= k < s.len(),
        k != cell,
        s[k].phase is Clean,
    ensures
        !reaches(s, cell, k) ==> written(s, cell, value)[k] == s[k],
        reaches(s, cell, k) ==> written(s, cell, value)[k].phase is Dirty && written(
            s,
            cell,
            value,
        )[k].touched,
{
    lemma_write_effect(s, cell, value, k);
}

/// Dynamic dependency pruning. A clean computation that yields its source
/// only while a switch cell is on has, while the switch is off, read the
/// switch alone: a write to the source does not invalidate it, and the next
/// pass does not evaluate it. While the switch is on, it has read both, and
/// a write to the source invalidates it.
pub proof fn law_dependency_pruning(
    s: Seq<NodeSpec<Formula>>,
    n: int,
    switch: NodeId,
    source: NodeId,
    value: ValueSpec,
)
    requires
        sound(s),
        quiet(s),
        0 <= n < s.len(),
        s[n].role == Role::Computation(Formula::Gated { switch, source }),
        s[n].phase is Clean,
        switch < s.len(),
        source < s.len(),
        s[switch as int].role is Cell,
        s[source as int].role is Cell,
        switch != source,
    ensures
        s[switch as int].status == StatusSpec::Ready(ValueSpec::Flag(false)) ==> {
            &&& s[n].deps == seq![switch]
            &&& s[n].status == StatusSpec::Ready(ValueSpec::Nothing)
            &&& written(s, source as int, value)[n] == s[n]
        },
        s[switch as int].status == StatusSpec::Ready(ValueSpec::Flag(true)) ==> {
            &&& s[n].deps == seq![switch, source]
            &&& s[n].status == s[source as int].status
            &&& written(s, source as int, value)[n].phase is Dirty
            &&& written(s, source as int, value)[n].touched
        },
{
    let d = Formula::Gated { switch, source };
    let reads = s[n].deps;
    assert(coherent_at(s, n));
    assert(coherent_at(s, switch as int));
    assert(coherent_at(s, source as int));
    assert(handed(s, reads, 0) =~= Seq::<ValueSpec>::empty());
    assert(d.next(Seq::<ValueSpec>::empty()) == StepSpec::Read(switch));
    if reads.len() == 0 {
        assert(!reads.contains(switch));
    }
    assert(reads.len() >= 1);
    assert(d.next(handed(s, reads, 0)) == StepSpec::Read(reads[0]));
    assert(reads[0] == switch);
    let on = s[switch as int].status->Ready_0;
    assert(handed(s, reads, 1) =~= seq![on]);
    if s[switch as int].status == StatusSpec::Ready(ValueSpec::Flag(false)) {
        if reads.len() > 1 {
            assert(d.next(handed(s, reads, 1)) == StepSpec::Read(reads[1]));
        }
        assert(reads =~= seq![switch]);
        if reaches(s, source as int, n) {
            lemma_reach_last(s, source as int, n);
            let x = choose|x: NodeId|
                x < s.len() && #[trigger] s[x as int].subs.contains(n as NodeId) && (x
                    == source as int || reaches(s, source as int, x as int));
            assert(s[n as NodeId as int].deps.contains(x) <==> s[x as int].subs.contains(
                n as NodeId,
            ));
            assert(reads[0] == x);
            lemma_reach_last(s, source as int, x as int);
            let y = choose|y: NodeId|
                y < s.len() && #[trigger] s[y as int].subs.contains(x as int as NodeId);
            assert(s[x as int].deps.contains(y) <==> s[y as int].subs.contains(x));
        }
        lemma_write_effect(s, source as int, value, n);
    }
    if s[switch as int].status == StatusSpec::Ready(ValueSpec::Flag(true)) {
        if reads.len() == 1 {
            assert(reads.contains(source));
        }
        assert(reads.len() >= 2);
        assert(d.next(handed(s, reads, 1)) == StepSpec::Read(reads[1]));
        assert(reads[1] == source);
        let held = s[source as int].status->Ready_0;
        assert(handed(s, reads, 2) =~= seq![on, held]);
        if reads.len() > 2 {
            assert(d.next(handed(s, reads, 2)) == StepSpec::Read(reads[2]));
        }
        assert(reads =~= seq![switch, source]);
        assert(reads.contains(source));
        assert(s[n as NodeId as int].deps.contains(source) <==> s[source as int].subs.contains(
            n as NodeId,
        ));
        crate::invalidate::lemma_reach_first(s, source, n as NodeId);
        lemma_write_effect(s, source as int, value, n);
    }
}

/// Resource staleness rejection. When a resource has started a new
/// operation, it waits for that one only: it is pending under a generation
/// greater than any before, and the end of an operation that carries an
/// older generation is not what it waits for.
pub proof fn law_stale_results_rejected<D>(node: NodeSpec<D>, v: ValueSpec, stale: u64)
    requires
        restarts(node, v),
        node.generation < u64::MAX,
        stale <= node.generation,
    ensures
        refreshed(node, Ok(v)).status is Pending,
        refreshed(node, Ok(v)).generation == node.generation + 1,
        awaits(refreshed(node, Ok(v)), (node.generation + 1) as u64),
        !awaits(refreshed(node, Ok(v)), stale),
{
}

/// Once the operation that a resource waits for has ended, the resource
/// shows how it ended, and waits for no operation: the end of any other
/// operation, whenever it comes, changes nothing.
pub proof fn law_latest_result_stands<D: Derivation>(
    s: Seq<NodeSpec<D>>,
    r: int,
    result: Result<ValueSpec, Seq<char>>,
    other: u64,
)
    requires
        sound(s),
        quiet(s),
        0 <= r < s.len(),
        s[r].role is Resource,
        awaits(s[r], s[r].generation),
    ensures
        completed(s, r, result)[r].status == match result {
            Ok(v) => StatusSpec::Ready(v),
            Err(m) => StatusSpec::Errored(FaultSpec::Rejected(m)),
        },
        completed(s, r, result)[r].generation == s[r].generation,
        !awaits(completed(s, r, result)[r], other),
{
}

/// Aggregation over two observed nodes. If either is pending the
/// aggregate is pending, whatever the other is. If neither is pending and
/// exactly one has failed, the aggregate is failed with that node's fault
/// under that node's name. If neither is pending and neither has failed,
/// the aggregate is ready.
pub proof fn law_aggregation<D>(s: Seq<NodeSpec<D>>, x: NodeId, y: NodeId)
    requires
        x < s.len(),
        y < s.len(),
    ensures
        s[x as int].status is Pending || s[y as int].status is Pending ==> aggregate(s, seq![x, y])
            == AggregateSpec::Pending,
        !(s[x as int].status is Pending) && !(s[y as int].status is Pending)
            && s[x as int].status is Errored && !(s[y as int].status is Errored) ==> aggregate(
            s,
            seq![x, y],
        ) == AggregateSpec::Errored(
            seq![FailureSpec { node: x, fault: s[x as int].status->Errored_0 }],
        ),
        !(s[x as int].status is Pending) && !(s[y as int].status is Pending)
            && !(s[x as int].status is Errored) && s[y as int].status is Errored ==> aggregate(
            s,
            seq![x, y],
        ) == AggregateSpec::Errored(
            seq![FailureSpec { node: y, fault: s[y as int].status->Errored_0 }],
        ),
        !(s[x as int].status is Pending) && !(s[y as int].status is Pending)
            && s[x as int].status is Errored && s[y as int].status is Errored ==> aggregate(
            s,
            seq![x, y],
        ) == AggregateSpec::Errored(
            seq![
                FailureSpec { node: x, fault: s[x as int].status->Errored_0 },
                FailureSpec { node: y, fault: s[y as int].status->Errored_0 },
            ],
        ),
        !(s[x as int].status is Pending) && !(s[y as int].status is Pending)
            && !(s[x as int].status is Errored) && !(s[y as int].status is Errored) ==> aggregate(
            s,
            seq![x, y],
        ) == AggregateSpec::Ready,
        falls_back(BoundaryKind::Suspense, s, seq![x, y]) == (s[x as int].status is Pending
            || s[y as int].status is Pending),
        falls_back(BoundaryKind::ErrorBoundary, s, seq![x, y]) == (s[x as int].status is Errored
            || s[y as int].status is Errored),
{
    let observed = seq![x, y];
    reveal_with_fuel(failures, 3);
    assert(observed[0] == x && observed[1] == y);
    if s[x as int].status is Pending {
        assert(s[observed[0] as int].status is Pending);
    }
    if s[y as int].status is Pending {
        assert(s[observed[1] as int].status is Pending);
    }
    assert(failures(s, observed, 0) =~= Seq::<FailureSpec>::empty());
    let first = failures(s, observed, 1);
    let both = failures(s, observed, 2);
    if s[x as int].status is Errored {
        assert(first =~= seq![FailureSpec { node: x, fault: s[x as int].status->Errored_0 }]);
    } else {
        assert(first =~= Seq::<FailureSpec>::empty());
    }
    if s[y as int].status is Errored {
        assert(both =~= first.push(FailureSpec { node: y, fault: s[y as int].status->Errored_0 }));
    } else {
        assert(both =~= first);
    }
    if s[x as int].status is Errored && s[y as int].status is Errored {
        assert(both =~= seq![
            FailureSpec { node: x, fault: s[x as int].status->Errored_0 },
            FailureSpec { node: y, fault: s[y as int].status->Errored_0 },
        ]);
    }
    if s[x as int].status is Errored && !(s[y as int].status is Errored) {
        assert(both =~= seq![FailureSpec { node: x, fault: s[x as int].status->Errored_0 }]);
    }
    if !(s[x as int].status is Errored) && s[y as int].status is Errored {
        assert(both =~= seq![FailureSpec { node: y, fault: s[y as int].status->Errored_0 }]);
    }
}

/// A formula whose nodes are all older than node `n` never asks for a
/// node that is not: a graph of such formulas is layered, so that no read
/// and no pass of it ends in a cycle.
pub proof fn law_formulas_read_below(formula: Formula, n: int)
    requires
        formula.below(n),
    ensures
        reads_below(formula, n),
{
    assert forall|seen: Seq<ValueSpec>|
        match #[trigger] formula.next(seen) {
            StepSpec::Read(m) => m < n,
            _ => true,
        } by {}
}

} // verus!
