//! The dependency graph: its nodes, its mathematical model, and what it
//! means for it to be well formed.

use vstd::prelude::*;
use crate::derivation::{Derivation, StepSpec};
use crate::tracker::{tidy, FrameSpec, Tracker};
use crate::value::{view_of, Fault, FaultSpec, NodeId, Status, StatusSpec, Value, ValueSpec};

verus! {

/// How far a node's cached state can be trusted.
#[derive(Debug, Clone, Copy, PartialEq, Eq, Structural)]
pub enum Phase {
    /// Consistent with what the node depends on.
    Clean,
    /// Not known to be consistent: never evaluated, or invalidated since.
    Dirty,
    /// Being evaluated right now.
    Running,
}

/// What kind of node this is.
pub enum Role<D> {
    /// Primitive state, changed only by a write.
    Cell,
    /// A value derived from other nodes and memoized.
    Computation(D),
    /// The result of an asynchronous operation on the value of the trigger
    /// node, which the field names.
    Resource(NodeId),
}

/// One node of the graph.
pub struct Node<D> {
    pub role: Role<D>,
    pub status: Status,
    pub phase: Phase,
    /// Whether the node changed or was invalidated since the last pass.
    pub touched: bool,
    /// The nodes read in the last evaluation, in reading order.
    pub deps: Vec<NodeId>,
    /// The nodes that read this one in their last evaluation.
    pub subs: Vec<NodeId>,
    /// Of a resource: the stamp of the operation started last.
    pub generation: u64,
    /// Of a resource: the trigger value that the last operation was started with.
    pub launched: Option<Value>,
    /// Of a resource: the value that it was last ready with.
    pub last: Option<Value>,
}

/// The mathematical content of a [`Node`].
pub ghost struct NodeSpec<D> {
    pub role: Role<D>,
    pub status: StatusSpec,
    pub phase: Phase,
    pub touched: bool,
    pub deps: Seq<NodeId>,
    pub subs: Seq<NodeId>,
    pub generation: u64,
    pub launched: Option<ValueSpec>,
    pub last: Option<ValueSpec>,
}

impl<D> View for Node<D> {
    type V = NodeSpec<D>;

    open spec fn view(&self) -> NodeSpec<D> {
        NodeSpec {
            role: self.role,
            status: self.status@,
            phase: self.phase,
            touched: self.touched,
            deps: self.deps@,
            subs: self.subs@,
            generation: self.generation,
            launched: view_of(self.launched),
            last: view_of(self.last),
        }
    }
}

/// The two flavors of boundary.
#[derive(Debug, Clone, Copy, PartialEq, Eq, Structural)]
pub enum BoundaryKind {
    /// Shows its fallback while anything it observes is pending.
    Suspense,
    /// Shows its fallback while anything it observes has failed.
    ErrorBoundary,
}

/// A boundary: the nodes it observes, without owning them.
pub struct Boundary {
    pub kind: BoundaryKind,
    pub observed: Vec<NodeId>,
}

/// The mathematical content of a [`Boundary`].
pub ghost struct BoundarySpec {
    pub kind: BoundaryKind,
    pub observed: Seq<NodeId>,
}

impl View for Boundary {
    type V = BoundarySpec;

    open spec fn view(&self) -> BoundarySpec {
        BoundarySpec { kind: self.kind, observed: self.observed@ }
    }
}

/// An asynchronous operation to start: which resource it is for, the stamp
/// that its result must carry, and the trigger value to run it on.
#[derive(Debug, PartialEq, Eq)]
pub struct Launch {
    pub resource: NodeId,
    pub generation: u64,
    pub input: Value,
}

/// The mathematical content of a [`Launch`].
pub ghost struct LaunchSpec {
    pub resource: NodeId,
    pub generation: u64,
    pub input: ValueSpec,
}

impl View for Launch {
    type V = LaunchSpec;

    open spec fn view(&self) -> LaunchSpec {
        LaunchSpec { resource: self.resource, generation: self.generation, input: self.input@ }
    }
}

/// The mathematical content of a [`Graph`].
pub ghost struct GraphSpec<D> {
    pub nodes: Seq<NodeSpec<D>>,
    /// The tracking scopes that are open, innermost last.
    pub frames: Seq<FrameSpec>,
    /// For each change callback, the node that it watches.
    pub watchers: Seq<NodeId>,
    pub boundaries: Seq<BoundarySpec>,
    /// The nodes evaluated since the journal was last cleared, in order.
    pub journal: Seq<NodeId>,
    /// The operations that wait to be started.
    pub outbox: Seq<LaunchSpec>,
    /// Whether an evaluation ever ended because a node did not exist.
    pub dangling: bool,
}

/// Every entry of `list` names one of `len` nodes.
pub open spec fn within(list: Seq<NodeId>, len: nat) -> bool {
    forall|x: NodeId| #[trigger] list.contains(x) ==> x < len
}

/// What a reader obtains from a node with this status and last value: the
/// value if it is ready, the fault if it failed, the last value or nothing
/// while it is pending, and nothing before it was ever asked.
pub open spec fn yield_of(status: StatusSpec, last: Option<ValueSpec>) -> Result<
    ValueSpec,
    FaultSpec,
> {
    match status {
        StatusSpec::Ready(v) => Ok(v),
        StatusSpec::Errored(f) => Err(f),
        StatusSpec::Pending => Ok(
            match last {
                Some(v) => v,
                None => ValueSpec::Nothing,
            },
        ),
        StatusSpec::Idle => Ok(ValueSpec::Nothing),
    }
}

/// What a reader of a settled node obtains: its value, or its fault.
pub open spec fn outcome<D>(node: NodeSpec<D>) -> Result<ValueSpec, FaultSpec> {
    yield_of(node.status, node.last)
}

/// The value that reading node `id` hands to a derivation.
pub open spec fn handed_one<D>(s: Seq<NodeSpec<D>>, id: NodeId) -> ValueSpec {
    match outcome(s[id as int]) {
        Ok(v) => v,
        Err(_) => ValueSpec::Nothing,
    }
}

/// The values handed to a derivation for the first `k` of its reads.
pub open spec fn handed<D>(s: Seq<NodeSpec<D>>, reads: Seq<NodeId>, k: int) -> Seq<ValueSpec> {
    Seq::new(k as nat, |i: int| handed_one(s, reads[i]))
}

/// Each of `reads` is what the derivation asked for next, given the values
/// of the reads before it, and only the last of them may have failed.
pub open spec fn replays<D: Derivation>(d: D, s: Seq<NodeSpec<D>>, reads: Seq<NodeId>) -> bool {
    forall|i: int|
        0 <= i < reads.len() ==> {
            &&& #[trigger] d.next(handed(s, reads, i)) == StepSpec::Read(reads[i])
            &&& i < reads.len() - 1 ==> outcome(s[reads[i] as int]) is Ok
        }
}

/// The status in which an evaluation that made exactly `reads` ends: the
/// fault of the last node read, if it had one; else what the derivation
/// concludes from the values it was handed.
pub open spec fn concluded<D: Derivation>(
    d: D,
    s: Seq<NodeSpec<D>>,
    reads: Seq<NodeId>,
) -> StatusSpec {
    if reads.len() > 0 && outcome(s[reads.last() as int]) is Err {
        StatusSpec::Errored(outcome(s[reads.last() as int])->Err_0)
    } else {
        match d.next(handed(s, reads, reads.len() as int)) {
            StepSpec::Done(v) => StatusSpec::Ready(v),
            StepSpec::Fail(m) => StatusSpec::Errored(FaultSpec::Raised(m)),
            StepSpec::Read(m) => if reads.contains(m) {
                StatusSpec::Errored(FaultSpec::RepeatedRead(m))
            } else {
                StatusSpec::Errored(FaultSpec::UnknownNode(m))
            },
        }
    }
}

/// An evaluation that made exactly `reads` could end there: the derivation
/// did not go on to ask for a further node that it could have been given.
pub open spec fn ended<D: Derivation>(d: D, s: Seq<NodeSpec<D>>, reads: Seq<NodeId>) -> bool {
    (reads.len() > 0 && outcome(s[reads.last() as int]) is Err) || match d.next(
        handed(s, reads, reads.len() as int),
    ) {
        StepSpec::Read(m) => reads.contains(m) || m >= s.len(),
        _ => true,
    }
}

/// The state of resource node `n` agrees with the settled trigger `t`: it
/// failed as the trigger did, or its last operation was started on the
/// trigger's present value.
pub open spec fn follows_trigger<D>(s: Seq<NodeSpec<D>>, n: int, t: NodeId) -> bool {
    &&& s[n].deps == seq![t]
    &&& match outcome(s[t as int]) {
        Err(f) => s[n].status == StatusSpec::Errored(f) && s[n].launched is None,
        Ok(v) => s[n].launched == Some(v),
    }
}

/// A status that a resource has of its own operations, not of its trigger:
/// pending, ready, rejected, or out of generations.
pub open spec fn earned(status: StatusSpec) -> bool {
    match status {
        StatusSpec::Idle => false,
        StatusSpec::Pending => true,
        StatusSpec::Ready(_) => true,
        StatusSpec::Errored(f) => f is Rejected || f is Exhausted,
    }
}

/// Node `n` is consistent with what it depends on. A cell always is. A clean
/// computation has the status that its derivation yields on the present
/// outcomes of the nodes it read; a clean resource agrees with its trigger,
/// which is an older node, and while it has a trigger value on record its
/// status is one of its own.
pub open spec fn coherent_at<D: Derivation>(s: Seq<NodeSpec<D>>, n: int) -> bool {
    match s[n].role {
        Role::Cell => s[n].status is Ready && s[n].phase is Clean && s[n].deps.len() == 0,
        Role::Computation(d) => s[n].phase is Clean ==> {
            &&& replays(d, s, s[n].deps)
            &&& ended(d, s, s[n].deps)
            &&& s[n].status == concluded(d, s, s[n].deps)
        },
        Role::Resource(t) => {
            &&& t < n
            &&& s[n].launched is Some ==> earned(s[n].status)
            &&& s[n].phase is Clean ==> follows_trigger(s, n, t)
        },
    }
}

/// Dependencies and subscriptions name nodes of the graph, each once.
pub open spec fn shaped<D>(s: Seq<NodeSpec<D>>) -> bool {
    &&& s.len() <= usize::MAX
    &&& forall|n: int|
        0 <= n < s.len() ==> {
            &&& within((#[trigger] s[n]).deps, s.len())
            &&& s[n].deps.no_duplicates()
            &&& within(s[n].subs, s.len())
            &&& s[n].subs.no_duplicates()
        }
}

/// Subscriptions mirror dependencies: `n` is subscribed to `d` exactly when
/// `n` read `d` in its last evaluation.
pub open spec fn linked<D>(s: Seq<NodeSpec<D>>) -> bool {
    forall|n: NodeId, d: NodeId|
        n < s.len() && d < s.len() ==> (s[n as int].deps.contains(d) <==> #[trigger] s[d as int].subs.contains(
            n,
        ))
}

/// What a clean node depends on is clean.
pub open spec fn grounded<D>(s: Seq<NodeSpec<D>>) -> bool {
    forall|n: int, d: NodeId|
        0 <= n < s.len() && s[n].phase is Clean && #[trigger] s[n].deps.contains(d) ==> s[d as int].phase is Clean
}

/// A clean node that failed for want of a node wants one that still does
/// not exist.
pub open spec fn unmet<D>(s: Seq<NodeSpec<D>>) -> bool {
    forall|k: int, id: NodeId|
        0 <= k < s.len() && s[k].phase is Clean && #[trigger] wants(s[k], id) ==> id >= s.len()
}

/// The derivation never asks for a node that is not older than node `n`.
pub open spec fn reads_below<D: Derivation>(d: D, n: int) -> bool {
    forall|seen: Seq<ValueSpec>|
        match #[trigger] d.next(seen) {
            StepSpec::Read(m) => m < n,
            _ => true,
        }
}

/// Every node depends only on nodes created before it: no derivation ever
/// asks for a node that is not older than its own, and every trigger is
/// older than its resource. Such a graph has no cycle.
pub open spec fn layered<D: Derivation>(s: Seq<NodeSpec<D>>) -> bool {
    &&& forall|n: int, seen: Seq<ValueSpec>|
        0 <= n < s.len() && s[n].role is Computation ==> match #[trigger] s[n].role->Computation_0.next(seen) {
            StepSpec::Read(m) => m < n,
            _ => true,
        }
    &&& forall|n: int| 0 <= n < s.len() && (#[trigger] s[n]).role is Resource ==> s[n].role->Resource_0 < n
}

/// Whether a graph is layered depends on the roles of its nodes alone.
pub proof fn lemma_layered_same<D: Derivation>(s: Seq<NodeSpec<D>>, t: Seq<NodeSpec<D>>)
    requires
        s.len() == t.len(),
        forall|k: int| 0 <= k < s.len() ==> (#[trigger] s[k]).role == t[k].role,
    ensures
        layered(s) == layered(t),
{
    if layered(s) {
        assert forall|n: int, seen: Seq<ValueSpec>|
            0 <= n < t.len() && t[n].role is Computation implies match #[trigger] t[n].role->Computation_0.next(seen) {
            StepSpec::Read(m) => m < n,
            _ => true,
        } by {
            assert(s[n].role == t[n].role);
            assert(match s[n].role->Computation_0.next(seen) {
                StepSpec::Read(m) => m < n,
                _ => true,
            });
        }
        assert forall|n: int| 0 <= n < t.len() && (#[trigger] t[n]).role is Resource implies t[n].role->Resource_0
            < n by {
            assert(s[n].role == t[n].role);
        }
    }
    if layered(t) {
        assert forall|n: int, seen: Seq<ValueSpec>|
            0 <= n < s.len() && s[n].role is Computation implies match #[trigger] s[n].role->Computation_0.next(seen) {
            StepSpec::Read(m) => m < n,
            _ => true,
        } by {
            assert(s[n].role == t[n].role);
            assert(match t[n].role->Computation_0.next(seen) {
                StepSpec::Read(m) => m < n,
                _ => true,
            });
        }
        assert forall|n: int| 0 <= n < s.len() && (#[trigger] s[n]).role is Resource implies s[n].role->Resource_0
            < n by {
            assert(s[n].role == t[n].role);
        }
    }
}

/// A graph stays layered when a node is added that depends only on older
/// nodes.
pub proof fn lemma_layered_push<D: Derivation>(s: Seq<NodeSpec<D>>, t: Seq<NodeSpec<D>>, node: NodeSpec<D>)
    requires
        layered(s),
        t.len() == s.len(),
        forall|k: int| 0 <= k < s.len() ==> (#[trigger] s[k]).role == t[k].role,
        match node.role {
            Role::Cell => true,
            Role::Computation(d) => reads_below(d, s.len() as int),
            Role::Resource(trigger) => trigger < s.len(),
        },
    ensures
        layered(t.push(node)),
{
    lemma_layered_same(s, t);
    let u = t.push(node);
    assert forall|n: int, seen: Seq<ValueSpec>|
        0 <= n < u.len() && u[n].role is Computation implies match #[trigger] u[n].role->Computation_0.next(seen) {
        StepSpec::Read(m) => m < n,
        _ => true,
    } by {
        if n < t.len() {
            assert(u[n] == t[n]);
            assert(match t[n].role->Computation_0.next(seen) {
                StepSpec::Read(m) => m < n,
                _ => true,
            });
        }
    }
    assert forall|n: int| 0 <= n < u.len() && (#[trigger] u[n]).role is Resource implies u[n].role->Resource_0
        < n by {
        if n < t.len() {
            assert(u[n] == t[n]);
        }
    }
}

/// The invariant of the nodes, which holds also while an evaluation runs.
pub open spec fn sound<D: Derivation>(s: Seq<NodeSpec<D>>) -> bool {
    &&& shaped(s)
    &&& linked(s)
    &&& grounded(s)
    &&& unmet(s)
    &&& forall|n: int| 0 <= n < s.len() ==> #[trigger] coherent_at(s, n)
}

/// Nodes that stay in place keep this property when no node becomes clean
/// or changes its status while clean.
pub proof fn lemma_unmet_kept<D>(s: Seq<NodeSpec<D>>, t: Seq<NodeSpec<D>>)
    requires
        unmet(s),
        t.len() == s.len(),
        forall|k: int|
            0 <= k < s.len() && (#[trigger] t[k]).phase is Clean ==> s[k].phase is Clean && t[k].status
                == s[k].status,
    ensures
        unmet(t),
{
    assert forall|k: int, id: NodeId|
        0 <= k < t.len() && t[k].phase is Clean && #[trigger] wants(t[k], id) implies id
        >= t.len() by {
        assert(wants(s[k], id));
    }
}

/// The node failed for want of node `id`: its derivation asked for that
/// node when it did not exist, or it read a node that had failed so.
pub open spec fn wants<D>(node: NodeSpec<D>, id: NodeId) -> bool {
    node.status == StatusSpec::Errored(FaultSpec::UnknownNode(id))
}

/// Unless the graph is marked as dangling, no node has failed for want of
/// a node.
pub open spec fn heeded<D>(g: GraphSpec<D>) -> bool {
    !g.dangling ==> forall|k: int, id: NodeId| 0 <= k < g.nodes.len() ==> !#[trigger] wants(g.nodes[k], id)
}

/// The mark is still right after a change that gives no node a new status.
pub proof fn lemma_heeded_kept<D>(a: GraphSpec<D>, b: GraphSpec<D>)
    requires
        heeded(a),
        a.dangling ==> b.dangling,
        b.nodes.len() == a.nodes.len(),
        forall|k: int, id: NodeId|
            0 <= k < a.nodes.len() && #[trigger] wants(b.nodes[k], id) ==> wants(a.nodes[k], id),
    ensures
        heeded(b),
{
    if !b.dangling {
        assert forall|k: int, id: NodeId| 0 <= k < b.nodes.len() implies !#[trigger] wants(
            b.nodes[k],
            id,
        ) by {
            if wants(b.nodes[k], id) {
                assert(wants(a.nodes[k], id));
            }
        }
    }
}

/// The nodes when node `id` is about to be created: every clean node that
/// had failed for want of it is dirty and touched.
pub open spec fn awakened<D>(s: Seq<NodeSpec<D>>, id: NodeId) -> Seq<NodeSpec<D>> {
    Seq::new(
        s.len(),
        |k: int|
            if s[k].phase is Clean && wants(s[k], id) {
                NodeSpec { phase: Phase::Dirty, touched: true, ..s[k] }
            } else {
                s[k]
            },
    )
}

/// No evaluation is running.
pub open spec fn quiet<D>(s: Seq<NodeSpec<D>>) -> bool {
    forall|n: int| 0 <= n < s.len() ==> !((#[trigger] s[n]).phase is Running)
}

/// Every open scope belongs to a boundary of the graph and holds nodes of it.
pub open spec fn scoped(frames: Seq<FrameSpec>, nodes: nat, boundaries: nat) -> bool {
    &&& tidy(frames)
    &&& forall|i: int|
        0 <= i < frames.len() ==> {
            &&& within((#[trigger] frames[i]).reads, nodes)
            &&& frames[i].owner is Boundary
            &&& frames[i].owner->Boundary_0 < boundaries
        }
}

impl<D: Derivation> GraphSpec<D> {
    /// The invariant of the graph between calls.
    pub open spec fn wf(self) -> bool {
        &&& sound(self.nodes)
        &&& quiet(self.nodes)
        &&& heeded(self)
        &&& scoped(self.frames, self.nodes.len(), self.boundaries.len())
        &&& within(self.watchers, self.nodes.len())
        &&& forall|b: int|
            0 <= b < self.boundaries.len() ==> within(
                (#[trigger] self.boundaries[b]).observed,
                self.nodes.len(),
            )
    }
}

/// The reactive graph. It owns its nodes; they live as long as it does.
pub struct Graph<D: Derivation> {
    pub(crate) nodes: Vec<Node<D>>,
    pub(crate) tracker: Tracker,
    pub(crate) watchers: Vec<NodeId>,
    pub(crate) boundaries: Vec<Boundary>,
    pub(crate) journal: Vec<NodeId>,
    pub(crate) outbox: Vec<Launch>,
    pub(crate) dangling: bool,
}

impl<D: Derivation> View for Graph<D> {
    type V = GraphSpec<D>;

    open(crate) spec fn view(&self) -> GraphSpec<D> {
        GraphSpec {
            nodes: Seq::new(self.nodes@.len(), |i: int| self.nodes@[i]@),
            frames: self.tracker@,
            watchers: self.watchers@,
            boundaries: Seq::new(self.boundaries@.len(), |i: int| self.boundaries@[i]@),
            journal: self.journal@,
            outbox: Seq::new(self.outbox@.len(), |i: int| self.outbox@[i]@),
            dangling: self.dangling,
        }
    }
}

/// A node as it is when created with this role and status.
pub open spec fn fresh<D>(role: Role<D>, status: StatusSpec, phase: Phase) -> NodeSpec<D> {
    NodeSpec {
        role,
        status,
        phase,
        touched: false,
        deps: Seq::empty(),
        subs: Seq::empty(),
        generation: 0,
        launched: None,
        last: None,
    }
}

impl<D: Derivation> Graph<D> {
    /// The invariant of the graph between calls.
    pub open spec fn wf(&self) -> bool {
        self@.wf()
    }

    /// An empty graph.
    pub fn new() -> (g: Self)
        ensures
            g.wf(),
            g@.nodes.len() == 0,
            g@.frames.len() == 0,
            g@.watchers.len() == 0,
            g@.boundaries.len() == 0,
            g@.journal.len() == 0,
            g@.outbox.len() == 0,
            !g@.dangling,
            layered(g@.nodes),
    {
        Graph {
            nodes: Vec::new(),
            tracker: Tracker::new(),
            watchers: Vec::new(),
            boundaries: Vec::new(),
            journal: Vec::new(),
            outbox: Vec::new(),
            dangling: false,
        }
    }

    /// Tears the graph down: every node, callback, boundary and open scope is
    /// released, and what waited to be started is forgotten. Names given
    /// out before mean nothing afterwards.
    pub fn teardown(&mut self)
        ensures
            final(self).wf(),
            final(self)@.nodes.len() == 0,
            final(self)@.frames.len() == 0,
            final(self)@.watchers.len() == 0,
            final(self)@.boundaries.len() == 0,
            final(self)@.journal.len() == 0,
            final(self)@.outbox.len() == 0,
            !final(self)@.dangling,
            layered(final(self)@.nodes),
    {
        *self = Graph::new();
    }

    /// How many nodes the graph holds.
    pub fn len(&self) -> (n: usize)
        ensures
            n == self@.nodes.len(),
    {
        self.nodes.len()
    }

    /// Makes every clean node that had failed for want of node `id` dirty.
    fn awaken(&mut self, id: NodeId)
        ensures
            final(self)@ == (GraphSpec { nodes: awakened(old(self)@.nodes, id), ..old(self)@ }),
    {
        let mut k: usize = 0;
        while k < self.nodes.len()
            invariant
                k <= self@.nodes.len(),
                self@ == (GraphSpec { nodes: self@.nodes, ..old(self)@ }),
                self@.nodes.len() == old(self)@.nodes.len(),
                forall|j: int|
                    0 <= j < self@.nodes.len() ==> #[trigger] self@.nodes[j] == if j < k {
                        awakened(old(self)@.nodes, id)[j]
                    } else {
                        old(self)@.nodes[j]
                    },
            decreases self@.nodes.len() - k,
        {
            let ghost before = self@;
            let wanted = match (&self.nodes[k].phase, &self.nodes[k].status) {
                (Phase::Clean, Status::Errored(Fault::UnknownNode(m))) => *m == id,
                _ => false,
            };
            assert(wanted == (before.nodes[k as int].phase is Clean && wants(before.nodes[k as int], id)));
            if wanted {
                self.nodes[k].phase = Phase::Dirty;
                self.nodes[k].touched = true;
            }
            k += 1;
            proof {
                assert(self@.nodes =~= before.nodes.update(
                    k - 1,
                    awakened(old(self)@.nodes, id)[k - 1],
                ));
                assert(self@.boundaries =~= before.boundaries);
                assert(self@.outbox =~= before.outbox);
            }
        }
        proof {
            assert(self@.nodes =~= awakened(old(self)@.nodes, id));
        }
    }

    /// Adds a node that nothing refers to yet. Whatever had failed for want
    /// of a node with its name becomes dirty.
    pub(crate) fn adopt(&mut self, role: Role<D>, status: Status, phase: Phase) -> (id: NodeId)
        requires
            old(self).wf(),
            role is Cell ==> status is Ready && phase is Clean,
            !(role is Cell) ==> phase is Dirty && status is Idle,
            role is Resource ==> role->Resource_0 < old(self)@.nodes.len(),
        ensures
            final(self).wf(),
            id == old(self)@.nodes.len(),
            final(self)@ == (GraphSpec {
                nodes: awakened(old(self)@.nodes, id).push(fresh(role, status@, phase)),
                ..old(self)@
            }),
            layered(old(self)@.nodes) && (role is Computation ==> reads_below(
                role->Computation_0,
                id as int,
            )) ==> layered(final(self)@.nodes),
    {
        let id: NodeId = self.nodes.len();
        if self.dangling {
            self.awaken(id);
        }
        let ghost before = old(self)@.nodes;
        let ghost woken = self@.nodes;
        proof {
            if !old(self)@.dangling {
                assert forall|k: int| 0 <= k < before.len() implies awakened(before, id)[k]
                    == before[k] by {
                    assert(!wants(before[k], id));
                }
            }
            assert(woken =~= awakened(before, id));
        }
        let node = Node {
            role,
            status,
            phase,
            touched: false,
            deps: Vec::new(),
            subs: Vec::new(),
            generation: 0,
            launched: None,
            last: None,
        };
        self.nodes.push(node);
        let total: usize = self.nodes.len();
        proof {
            let after = self@.nodes;
            assert(after =~= woken.push(fresh(role, status@, phase)));
            assert(self@.boundaries =~= old(self)@.boundaries);
            assert(self@.outbox =~= old(self)@.outbox);
            assert(total == before.len() + 1);
            lemma_awakened_sound(before, id);
            lemma_push_keeps_sound(woken, fresh(role, status@, phase));
            if layered(before) && (role is Computation ==> reads_below(role->Computation_0, id as int)) {
                lemma_layered_push(before, woken, fresh(role, status@, phase));
            }
            assert(heeded(self@)) by {
                if !self@.dangling {
                    assert forall|k: int, x: NodeId| 0 <= k < after.len() implies !#[trigger] wants(
                        after[k],
                        x,
                    ) by {
                        if k < before.len() {
                            assert(!wants(before[k], x));
                        }
                    }
                }
            }
            assert forall|x: NodeId| #[trigger] self@.watchers.contains(x) implies x < after.len() by {
                assert(old(self)@.watchers.contains(x));
            }
            assert forall|i: int| 0 <= i < self@.frames.len() implies within(
                (#[trigger] self@.frames[i]).reads,
                after.len(),
            ) by {
                assert(within(old(self)@.frames[i].reads, before.len()));
            }
            assert forall|b: int| 0 <= b < self@.boundaries.len() implies within(
                (#[trigger] self@.boundaries[b]).observed,
                after.len(),
            ) by {
                assert(within(old(self)@.boundaries[b].observed, before.len()));
            }
        }
        id
    }

    /// Creates a cell that holds `initial`. As with every new node, whatever
    /// had failed for want of a node of its name becomes dirty.
    pub fn create_cell(&mut self, initial: Value) -> (id: NodeId)
        requires
            old(self).wf(),
        ensures
            final(self).wf(),
            id == old(self)@.nodes.len(),
            final(self)@ == (GraphSpec {
                nodes: awakened(old(self)@.nodes, id).push(
                    fresh(Role::Cell, StatusSpec::Ready(initial@), Phase::Clean),
                ),
                ..old(self)@
            }),
            layered(old(self)@.nodes) ==> layered(final(self)@.nodes),
    {
        self.adopt(Role::Cell, Status::Ready(initial), Phase::Clean)
    }

    /// Creates a computation with derivation `d`. The derivation is not run:
    /// the first read will run it. If the derivation reads only older nodes,
    /// a layered graph stays layered.
    pub fn create_computation(&mut self, d: D) -> (id: NodeId)
        requires
            old(self).wf(),
        ensures
            final(self).wf(),
            id == old(self)@.nodes.len(),
            final(self)@ == (GraphSpec {
                nodes: awakened(old(self)@.nodes, id).push(
                    fresh(Role::Computation(d), StatusSpec::Idle, Phase::Dirty),
                ),
                ..old(self)@
            }),
            layered(old(self)@.nodes) && reads_below(d, id as int) ==> layered(final(self)@.nodes),
    {
        self.adopt(Role::Computation(d), Status::Idle, Phase::Dirty)
    }

    /// Creates a resource whose operation runs on the value of `trigger`. No
    /// operation is started: the first read will start one.
    pub fn create_resource(&mut self, trigger: NodeId) -> (id: NodeId)
        requires
            old(self).wf(),
            trigger < old(self)@.nodes.len(),
        ensures
            final(self).wf(),
            id == old(self)@.nodes.len(),
            final(self)@ == (GraphSpec {
                nodes: awakened(old(self)@.nodes, id).push(
                    fresh(Role::Resource(trigger), StatusSpec::Idle, Phase::Dirty),
                ),
                ..old(self)@
            }),
            layered(old(self)@.nodes) ==> layered(final(self)@.nodes),
    {
        self.adopt(Role::Resource(trigger), Status::Idle, Phase::Dirty)
    }
}

/// The values handed out do not change when the nodes read keep their outcomes.
pub proof fn lemma_handed_agrees<D>(
    s1: Seq<NodeSpec<D>>,
    s2: Seq<NodeSpec<D>>,
    reads: Seq<NodeId>,
    k: int,
)
    requires
        0 <= k <= reads.len(),
        forall|i: int| 0 <= i < k ==> outcome(s1[reads[i] as int]) == outcome(s2[reads[i] as int]),
    ensures
        handed(s1, reads, k) == handed(s2, reads, k),
{
    assert(handed(s1, reads, k) =~= handed(s2, reads, k));
}

/// A node stays coherent when it keeps its state and, if it is clean, the
/// nodes it read keep their outcomes, and the graph does not shrink.
pub proof fn lemma_coherent_agrees<D: Derivation>(s1: Seq<NodeSpec<D>>, s2: Seq<NodeSpec<D>>, n: int)
    requires
        0 <= n < s1.len() <= s2.len(),
        shaped(s1),
        coherent_at(s1, n),
        s1[n].role == s2[n].role,
        s1[n].status == s2[n].status,
        s1[n].deps == s2[n].deps,
        s1[n].launched == s2[n].launched,
        s2[n].phase is Clean ==> s1[n].phase is Clean,
        s1[n].role is Cell ==> s2[n].phase is Clean,
        s2[n].phase is Clean ==> forall|id: NodeId| #[trigger] wants(s1[n], id) ==> id >= s2.len(),
        s2[n].phase is Clean ==> forall|d: NodeId| #[trigger]
            s1[n].deps.contains(d) ==> outcome(s1[d as int]) == outcome(s2[d as int]),
    ensures
        coherent_at(s2, n),
{
    let reads = s1[n].deps;
    assert(within(reads, s1.len()));
    if s2[n].phase is Clean {
        assert forall|i: int| 0 <= i < reads.len() implies outcome(s1[reads[i] as int]) == outcome(
            s2[reads[i] as int],
        ) by {
            assert(reads.contains(reads[i]));
        }
    }
    match s1[n].role {
        Role::Cell => {},
        Role::Computation(d) => {
            if s2[n].phase is Clean {
                assert forall|i: int| 0 <= i <= reads.len() implies handed(s1, reads, i) == handed(
                    s2,
                    reads,
                    i,
                ) by {
                    lemma_handed_agrees(s1, s2, reads, i);
                }
                assert(replays(d, s2, reads)) by {
                    assert forall|i: int| 0 <= i < reads.len() implies {
                        &&& #[trigger] d.next(handed(s2, reads, i)) == StepSpec::Read(reads[i])
                        &&& i < reads.len() - 1 ==> outcome(s2[reads[i] as int]) is Ok
                    } by {
                        assert(handed(s1, reads, i) == handed(s2, reads, i));
                        assert(d.next(handed(s1, reads, i)) == StepSpec::Read(reads[i]));
                    }
                }
                assert(handed(s1, reads, reads.len() as int) == handed(s2, reads, reads.len() as int));
                if reads.len() > 0 {
                    assert(reads.contains(reads.last()));
                }
                match d.next(handed(s1, reads, reads.len() as int)) {
                    StepSpec::Read(m) => {
                        if !reads.contains(m) && !(reads.len() > 0 && outcome(
                            s1[reads.last() as int],
                        ) is Err) {
                            assert(wants(s1[n], m));
                        }
                    },
                    _ => {},
                }
            }
        },
        Role::Resource(t) => {
            if s2[n].phase is Clean {
                assert(reads == seq![t]);
                assert(reads[0] == t);
                assert(reads.contains(t));
            }
        },
    }
}

/// Adding a node that nothing refers to keeps the graph sound.
pub proof fn lemma_push_keeps_sound<D: Derivation>(s: Seq<NodeSpec<D>>, node: NodeSpec<D>)
    requires
        sound(s),
        node.deps.len() == 0,
        node.subs.len() == 0,
        node.role is Cell ==> node.status is Ready && node.phase is Clean,
        !(node.role is Cell) ==> node.phase is Dirty,
        node.role is Resource ==> node.role->Resource_0 < s.len(),
        node.launched is None,
        s.len() < usize::MAX,
        forall|k: int| 0 <= k < s.len() && (#[trigger] s[k]).phase is Clean ==> !wants(s[k], s.len() as NodeId),
    ensures
        sound(s.push(node)),
        quiet(s) ==> quiet(s.push(node)),
{
    let t = s.push(node);
    assert(unmet(t)) by {
        assert forall|k: int, id: NodeId|
            0 <= k < t.len() && t[k].phase is Clean && #[trigger] wants(t[k], id) implies id
            >= t.len() by {
            if k < s.len() {
                assert(wants(s[k], id));
                assert(!wants(s[k], s.len() as NodeId));
            }
        }
    }
    assert forall|n: int| 0 <= n < t.len() implies coherent_at(t, n) by {
        if n < s.len() {
            assert(coherent_at(s, n));
            assert forall|d: NodeId| #[trigger] s[n].deps.contains(d) implies outcome(s[d as int])
                == outcome(t[d as int]) by {
                assert(within(s[n].deps, s.len()));
            }
            lemma_coherent_agrees(s, t, n);
        }
    }
    assert(shaped(t)) by {
        assert forall|n: int| 0 <= n < t.len() implies {
            &&& within((#[trigger] t[n]).deps, t.len())
            &&& t[n].deps.no_duplicates()
            &&& within(t[n].subs, t.len())
            &&& t[n].subs.no_duplicates()
        } by {
            if n < s.len() {
                assert(within(s[n].deps, s.len()));
                assert(within(s[n].subs, s.len()));
            }
        }
    }
    assert(linked(t)) by {
        assert forall|n: NodeId, d: NodeId| n < t.len() && d < t.len() implies (
        t[n as int].deps.contains(d) <==> #[trigger] t[d as int].subs.contains(n)) by {
            if n < s.len() && d < s.len() {
                assert(s[n as int].deps.contains(d) <==> s[d as int].subs.contains(n));
            } else if n < s.len() {
                assert(within(s[n as int].deps, s.len()));
            } else if d < s.len() {
                assert(within(s[d as int].subs, s.len()));
            }
        }
    }
    assert(grounded(t)) by {
        assert forall|n: int, d: NodeId|
            0 <= n < t.len() && t[n].phase is Clean && #[trigger] t[n].deps.contains(
                d,
            ) implies t[d as int].phase is Clean by {
            if n < s.len() {
                assert(within(s[n].deps, s.len()));
                assert(s[n].deps.contains(d));
            }
        }
    }
    if quiet(s) {
        assert forall|n: int| 0 <= n < t.len() implies !((#[trigger] t[n]).phase is Running) by {
            if n < s.len() {
                assert(!(s[n].phase is Running));
            }
        }
    }
}

/// Waking what had failed for want of a node keeps the graph sound, and
/// leaves no clean node that wants that node.
pub proof fn lemma_awakened_sound<D: Derivation>(s: Seq<NodeSpec<D>>, id: NodeId)
    requires
        sound(s),
    ensures
        sound(awakened(s, id)),
        quiet(s) ==> quiet(awakened(s, id)),
        forall|k: int|
            0 <= k < s.len() && (#[trigger] awakened(s, id)[k]).phase is Clean ==> !wants(
                awakened(s, id)[k],
                id,
            ),
{
    let t = awakened(s, id);
    assert(shaped(t)) by {
        assert forall|n: int| 0 <= n < t.len() implies {
            &&& within((#[trigger] t[n]).deps, t.len())
            &&& t[n].deps.no_duplicates()
            &&& within(t[n].subs, t.len())
            &&& t[n].subs.no_duplicates()
        } by {
            assert(t[n].deps == s[n].deps);
            assert(t[n].subs == s[n].subs);
        }
    }
    assert(linked(t)) by {
        assert forall|n: NodeId, d: NodeId| n < t.len() && d < t.len() implies (
        t[n as int].deps.contains(d) <==> #[trigger] t[d as int].subs.contains(n)) by {
            assert(s[n as int].deps.contains(d) <==> s[d as int].subs.contains(n));
        }
    }
    lemma_unmet_kept(s, t);
    assert(grounded(t)) by {
        assert forall|n: int, d: NodeId|
            0 <= n < t.len() && t[n].phase is Clean && #[trigger] t[n].deps.contains(
                d,
            ) implies t[d as int].phase is Clean by {
            assert(s[n].deps.contains(d));
            assert(within(s[n].deps, s.len()));
            assert(s[d as int].phase is Clean);
            if wants(s[d as int], id) {
                assert(coherent_at(s, n));
                assert(coherent_at(s, d as int));
                let reads = s[n].deps;
                let i = choose|i: int| 0 <= i < reads.len() && reads[i] == d;
                match s[n].role {
                    Role::Cell => {},
                    Role::Computation(f) => {
                        assert(f.next(handed(s, reads, i)) == StepSpec::Read(reads[i]));
                        assert(i == reads.len() - 1);
                    },
                    Role::Resource(x) => {
                        assert(reads[0] == x);
                    },
                }
                assert(wants(s[n], id));
            }
        }
    }
    assert forall|n: int| 0 <= n < t.len() implies #[trigger] coherent_at(t, n) by {
        assert(coherent_at(s, n));
        assert forall|d: NodeId| #[trigger] s[n].deps.contains(d) implies outcome(s[d as int])
            == outcome(t[d as int]) by {
            assert(within(s[n].deps, s.len()));
        }
        lemma_coherent_agrees(s, t, n);
    }
    if quiet(s) {
        assert forall|n: int| 0 <= n < t.len() implies !((#[trigger] t[n]).phase is Running) by {
            assert(!(s[n].phase is Running));
        }
    }
}

} // verus!
