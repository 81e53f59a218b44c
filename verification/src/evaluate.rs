//! Evaluation: bringing a dirty node up to date, and what it depends on
//! before it.

use vstd::prelude::*;
use crate::cycle::{asks, led, lemma_led_agrees, lemma_trapped_at, lemma_trapped_grows, trapped};
use crate::derivation::{Derivation, Step, StepSpec};
use crate::graph::{
    coherent_at, handed, handed_one, layered, lemma_heeded_kept, lemma_layered_same, outcome,
    replays, within, Graph, GraphSpec, Launch, NodeSpec, Phase, Role,
};
use crate::invalidate::{count_in, lemma_count_shrinks};
use crate::progress::{
    advanced, feeds, lemma_advanced_count, lemma_advanced_refl, lemma_advanced_trans,
    lemma_needed_extends, lemma_phase_sound, logged, needed, refreshed, settled_from, steady,
};
use crate::rewire::{keeps, lemma_distinct_bounded};
use crate::tracker::{tidy, FrameSpec, Owner};
use crate::value::{
    copy_of, view_of, views, Fault, FaultSpec, NodeId, Status, StatusSpec, Value, ValueSpec,
};
use crate::verdict::{
    lemma_abandon, lemma_complete, lemma_run_fits, recorded, verdict_fits, Channel, Verdict,
};

verus! {

/// The frames are those of `base` with one frame of node `n` on top.
pub open spec fn framed(frames: Seq<FrameSpec>, base: Seq<FrameSpec>, n: NodeId) -> bool {
    &&& frames.len() == base.len() + 1
    &&& frames.drop_last() == base
    &&& frames.last().owner == Owner::Node(n)
}

/// In a layered graph, the nodes that are running are all younger than `n`.
pub open spec fn above<D: Derivation>(s: Seq<NodeSpec<D>>, n: int) -> bool {
    layered(s) ==> forall|k: int| 0 <= k < s.len() && (#[trigger] s[k]).phase is Running ==> k > n
}

/// In a layered graph, the nodes that are running are no older than `n`.
pub open spec fn beside<D: Derivation>(s: Seq<NodeSpec<D>>, n: int) -> bool {
    layered(s) ==> forall|k: int| 0 <= k < s.len() && (#[trigger] s[k]).phase is Running ==> k >= n
}

/// A fault that ends an evaluation without settling the node.
pub open spec fn aborts(f: FaultSpec) -> bool {
    f is Cyclic
}

/// The evaluation of node `n` has asked for a node that is trapped down
/// to node `z`.
pub open spec fn stuck<D: Derivation>(s: Seq<NodeSpec<D>>, n: NodeId, z: NodeId) -> bool {
    exists|m: NodeId| #[trigger] asks(s, n, m) && trapped(s, m, z)
}

impl<D: Derivation> Graph<D> {
    /// The phase of node `k`.
    pub fn phase_of(&self, k: NodeId) -> (p: Phase)
        requires
            k < self@.nodes.len(),
        ensures
            p == self@.nodes[k as int].phase,
    {
        self.nodes[k].phase
    }

    pub(crate) fn set_phase(&mut self, k: NodeId, phase: Phase)
        requires
            k < old(self)@.nodes.len(),
        ensures
            final(self)@ == (GraphSpec {
                nodes: old(self)@.nodes.update(
                    k as int,
                    NodeSpec { phase, ..old(self)@.nodes[k as int] },
                ),
                ..old(self)@
            }),
    {
        self.nodes[k].phase = phase;
        proof {
            assert(self@.nodes =~= old(self)@.nodes.update(
                k as int,
                NodeSpec { phase, ..old(self)@.nodes[k as int] },
            ));
            assert(self@.boundaries =~= old(self)@.boundaries);
            assert(self@.outbox =~= old(self)@.outbox);
        }
    }

    /// What a reader of node `m` obtains, were the node settled.
    pub(crate) fn outcome_of(&self, m: NodeId) -> (r: Result<Value, Fault>)
        requires
            m < self@.nodes.len(),
        ensures
            match r {
                Ok(v) => outcome(self@.nodes[m as int]) == Ok::<ValueSpec, FaultSpec>(v@),
                Err(f) => outcome(self@.nodes[m as int]) == Err::<ValueSpec, FaultSpec>(f@),
            },
    {
        match &self.nodes[m].status {
            Status::Ready(v) => Ok(v.clone()),
            Status::Errored(f) => Err(f.clone()),
            Status::Pending => match &self.nodes[m].last {
                Some(v) => Ok(v.clone()),
                None => Ok(Value::Nothing),
            },
            Status::Idle => Ok(Value::Nothing),
        }
    }
}

impl<D: Derivation> Graph<D> {
    /// Makes sure node `m` is clean, evaluating it if it is dirty.
    pub(crate) fn demand(&mut self, m: NodeId) -> (r: Result<(), Fault>)
        requires
            steady(old(self)@),
            m < old(self)@.nodes.len(),
            above(old(self)@.nodes, m as int),
        ensures
            steady(final(self)@),
            advanced(old(self)@, final(self)@),
            final(self)@.frames == old(self)@.frames,
            r is Ok ==> final(self)@.nodes[m as int].phase is Clean && needed(
                final(self)@.nodes,
                final(self)@.journal,
                old(self)@.journal.len() as int,
                set![m],
            ),
            r is Err ==> aborts(r->Err_0@) && !(final(self)@.nodes[m as int].phase is Clean)
                && trapped(final(self)@.nodes, m, r->Err_0@->Cyclic_0),
            layered(old(self)@.nodes) ==> r is Ok,
        decreases count_in(old(self)@.nodes, Phase::Dirty), 1nat,
    {
        proof {
            lemma_advanced_refl(self@);
            if self@.nodes[m as int].phase is Running {
                lemma_trapped_at(self@.nodes, m);
            }
        }
        match self.phase_of(m) {
            Phase::Clean => Ok(()),
            Phase::Running => Err(Fault::Cyclic(m)),
            Phase::Dirty => self.evaluate(m),
        }
    }

    /// Evaluates the derivation of the running computation `n`, whose frame
    /// is on top of the tracker, and says what status that gives the node.
    #[verifier::loop_isolation(false)]
    pub(crate) fn run(&mut self, n: NodeId) -> (r: Result<Verdict, Fault>)
        requires
            steady(old(self)@),
            n < old(self)@.nodes.len(),
            old(self)@.nodes[n as int].phase is Running,
            old(self)@.nodes[n as int].role is Computation,
            old(self)@.frames.len() > 0,
            old(self)@.frames.last() == (FrameSpec { owner: Owner::Node(n), reads: Seq::empty() }),
            beside(old(self)@.nodes, n as int),
        ensures
            steady(final(self)@),
            advanced(old(self)@, final(self)@),
            framed(final(self)@.frames, old(self)@.frames.drop_last(), n),
            r is Ok ==> r->Ok_0.channel is None && !r->Ok_0.launch && verdict_fits(
                final(self)@.nodes,
                n as int,
                final(self)@.frames.last().reads,
                r->Ok_0.status@,
                None,
            ) && needed(
                final(self)@.nodes,
                final(self)@.journal,
                old(self)@.journal.len() as int,
                final(self)@.frames.last().reads.to_set(),
            ),
            r is Err ==> aborts(r->Err_0@) && stuck(final(self)@.nodes, n, r->Err_0@->Cyclic_0),
            layered(old(self)@.nodes) ==> r is Ok,
        decreases count_in(old(self)@.nodes, Phase::Dirty), 2nat,
    {
        let ghost a = self@;
        let ghost base = a.frames.drop_last();
        let ghost d = a.nodes[n as int].role->Computation_0;
        let mut seen: Vec<Value> = Vec::new();
        proof {
            lemma_advanced_refl(a);
            assert(views(seen@) =~= handed(a.nodes, a.frames.last().reads, 0));
        }
        loop
            invariant
                steady(self@),
                advanced(a, self@),
                framed(self@.frames, base, n),
                within(self@.frames.last().reads, a.nodes.len()),
                forall|x: NodeId| #[trigger]
                    self@.frames.last().reads.contains(x) ==> self@.nodes[x as int].phase is Clean,
                needed(
                    self@.nodes,
                    self@.journal,
                    a.journal.len() as int,
                    self@.frames.last().reads.to_set(),
                ),
                seen@.len() == self@.frames.last().reads.len(),
                views(seen@) == handed(
                    self@.nodes,
                    self@.frames.last().reads,
                    self@.frames.last().reads.len() as int,
                ),
                forall|i: int|
                    0 <= i < self@.frames.last().reads.len() ==> {
                        &&& outcome(self@.nodes[(#[trigger] self@.frames.last().reads[i]) as int]) is Ok
                        &&& d.next(handed(self@.nodes, self@.frames.last().reads, i)) == StepSpec::Read(
                            self@.frames.last().reads[i],
                        )
                    },
            decreases a.nodes.len() - self@.frames.last().reads.len(),
        {
            let ghost g = self@;
            let ghost reads = g.frames.last().reads;
            proof {
                assert(keeps(a.nodes[n as int], g.nodes[n as int]) || settled_from(
                    a.nodes[n as int],
                    g.nodes[n as int],
                    g.nodes,
                ));
                assert(g.nodes[n as int].role == Role::Computation(d));
                assert(g.frames[g.frames.len() - 1].reads.no_duplicates());
                lemma_distinct_bounded(reads, a.nodes.len());
            }
            assert(self.nodes@[n as int]@.role == Role::Computation(d));
            let s = match &self.nodes[n].role {
                Role::Computation(derivation) => derivation.step(&seen),
                _ => Step::Done(Value::Nothing),
            };
            assert(s@ == d.next(handed(g.nodes, reads, reads.len() as int)));
            match s {
                Step::Done(v) => {
                    proof {
                        lemma_run_fits(g.nodes, n as int, reads, StatusSpec::Ready(v@));
                    }
                    return Ok(Verdict { status: Status::Ready(v), channel: None, launch: false });
                },
                Step::Fail(message) => {
                    proof {
                        lemma_run_fits(
                            g.nodes,
                            n as int,
                            reads,
                            StatusSpec::Errored(FaultSpec::Raised(message@)),
                        );
                    }
                    return Ok(
                        Verdict {
                            status: Status::Errored(Fault::Raised(message)),
                            channel: None,
                            launch: false,
                        },
                    );
                },
                Step::Read(m) => {
                    if m >= self.nodes.len() {
                        proof {
                            assert(!reads.contains(m));
                            lemma_run_fits(
                                g.nodes,
                                n as int,
                                reads,
                                StatusSpec::Errored(FaultSpec::UnknownNode(m)),
                            );
                        }
                        return Ok(
                            Verdict {
                                status: Status::Errored(Fault::UnknownNode(m)),
                                channel: None,
                                launch: false,
                            },
                        );
                    }
                    let added = self.tracker.record(m);
                    if !added {
                        proof {
                            lemma_run_fits(
                                g.nodes,
                                n as int,
                                reads,
                                StatusSpec::Errored(FaultSpec::RepeatedRead(m)),
                            );
                        }
                        return Ok(
                            Verdict {
                                status: Status::Errored(Fault::RepeatedRead(m)),
                                channel: None,
                                launch: false,
                            },
                        );
                    }
                    let ghost g1 = self@;
                    let ghost longer = reads.push(m);
                    proof {
                        assert(g1.frames.last().reads == longer);
                        assert(g1.frames.drop_last() =~= base);
                        assert(g1 == (GraphSpec { frames: g1.frames, ..g }));
                        lemma_advanced_count(a, g);
                        assert(longer.no_duplicates());
                        assert(within(longer, a.nodes.len())) by {
                            assert forall|x: NodeId| #[trigger] longer.contains(x) implies x
                                < a.nodes.len() by {
                                let j = choose|j: int| 0 <= j < longer.len() && longer[j] == x;
                                if j < reads.len() {
                                    assert(reads[j] == x);
                                    assert(reads.contains(x));
                                }
                            }
                        }
                        lemma_distinct_bounded(longer, a.nodes.len());
                        lemma_layered_same(g.nodes, g1.nodes);
                        if layered(a.nodes) {
                            assert(m < n);
                            assert forall|k: int|
                                0 <= k < g1.nodes.len() && (#[trigger] g1.nodes[k]).phase is Running implies k
                                > m by {
                                assert(g.nodes[k].phase is Running);
                                assert(a.nodes[k].phase is Running);
                            }
                        }
                    }
                    let demanded = self.demand(m);
                    let ghost g2 = self@;
                    proof {
                        lemma_advanced_trans(a, g1, g2);
                        if demanded is Ok {
                            assert forall|i: int| 0 <= i < g1.journal.len() implies g2.nodes[(
                            #[trigger] g1.journal[i]) as int].deps == g1.nodes[g1.journal[i] as int].deps by {
                                let e = g1.journal[i] as int;
                                assert(g1.nodes[e].phase is Clean);
                                assert(keeps(g1.nodes[e], g2.nodes[e]) || settled_from(
                                    g1.nodes[e],
                                    g2.nodes[e],
                                    g2.nodes,
                                ));
                            }
                            assert(reads.to_set().subset_of(longer.to_set())) by {
                                assert forall|x: NodeId| reads.to_set().contains(x) implies longer.to_set().contains(
                                    x,
                                ) by {
                                    let j = choose|j: int| 0 <= j < reads.len() && reads[j] == x;
                                    assert(longer[j] == x);
                                }
                            }
                            assert(set![m].subset_of(longer.to_set())) by {
                                assert(longer[reads.len() as int] == m);
                            }
                            assert(needed(g2.nodes, g2.journal, g1.journal.len() as int, longer.to_set())) by {
                                assert forall|i: int| g1.journal.len() <= i < g2.journal.len() implies longer.to_set().contains(
                                    #[trigger] g2.journal[i],
                                ) || exists|j: int| #[trigger] feeds(g2.nodes, g2.journal, i, j) by {
                                    assert(set![m].contains(g2.journal[i]) || exists|j: int| #[trigger]
                                        feeds(g2.nodes, g2.journal, i, j));
                                }
                            }
                            lemma_needed_extends(
                                g1.nodes,
                                g2.nodes,
                                g1.journal,
                                g2.journal,
                                a.journal.len() as int,
                                reads.to_set(),
                                longer.to_set(),
                            );
                        }
                    }
                    match demanded {
                        Err(fault) => {
                            proof {
                                assert(led(d, g.nodes, reads)) by {
                                    assert forall|i: int| 0 <= i < reads.len() implies {
                                        &&& g.nodes[(#[trigger] reads[i]) as int].phase is Clean
                                        &&& outcome(g.nodes[reads[i] as int]) is Ok
                                        &&& d.next(handed(g.nodes, reads, i)) == StepSpec::Read(reads[i])
                                    } by {
                                        assert(reads.contains(reads[i]));
                                    }
                                }
                                assert forall|x: NodeId| #[trigger] reads.contains(x) implies g2.nodes[x as int].phase is Clean
                                    && outcome(g2.nodes[x as int]) == outcome(g.nodes[x as int]) by {
                                    assert(keeps(g1.nodes[x as int], g2.nodes[x as int]) || settled_from(
                                        g1.nodes[x as int],
                                        g2.nodes[x as int],
                                        g2.nodes,
                                    ));
                                }
                                lemma_led_agrees(d, g.nodes, g2.nodes, reads);
                                assert(keeps(a.nodes[n as int], g2.nodes[n as int]) || settled_from(
                                    a.nodes[n as int],
                                    g2.nodes[n as int],
                                    g2.nodes,
                                ));
                                assert(led(d, g2.nodes, reads) && d.next(
                                    handed(g2.nodes, reads, reads.len() as int),
                                ) == StepSpec::Read(m));
                                assert(asks(g2.nodes, n, m));
                            }
                            return Err(fault);
                        },
                        Ok(()) => {},
                    }
                    proof {
                        assert forall|x: NodeId| #[trigger] longer.contains(x) implies g2.nodes[x as int].phase is Clean
                            && (x != m ==> outcome(g2.nodes[x as int]) == outcome(g.nodes[x as int])) by {
                            let j = choose|j: int| 0 <= j < longer.len() && longer[j] == x;
                            if j < reads.len() {
                                assert(reads[j] == x);
                                assert(reads.contains(x));
                                assert(keeps(g1.nodes[x as int], g2.nodes[x as int]) || settled_from(
                                    g1.nodes[x as int],
                                    g2.nodes[x as int],
                                    g2.nodes,
                                ));
                            }
                        }
                        assert forall|i: int| 0 <= i <= reads.len() implies handed(g2.nodes, longer, i)
                            == handed(g.nodes, reads, i) by {
                            assert forall|j: int| 0 <= j < i implies handed_one(g2.nodes, longer[j])
                                == handed_one(g.nodes, reads[j]) by {
                                assert(longer[j] == reads[j]);
                                assert(reads.contains(reads[j]));
                                assert(longer.contains(longer[j]));
                            }
                            assert(handed(g2.nodes, longer, i) =~= handed(g.nodes, reads, i));
                        }
                    }
                    match self.outcome_of(m) {
                        Ok(v) => {
                            seen.push(v);
                            proof {
                                assert(views(seen@) =~= handed(g2.nodes, longer, longer.len() as int)) by {
                                    assert forall|j: int| 0 <= j < longer.len() implies views(seen@)[j]
                                        == handed(g2.nodes, longer, longer.len() as int)[j] by {
                                        if j < reads.len() {
                                            assert(views(seen@)[j] == handed(
                                                g.nodes,
                                                reads,
                                                reads.len() as int,
                                            )[j]);
                                            assert(handed(g2.nodes, longer, reads.len() as int)[j]
                                                == handed(g.nodes, reads, reads.len() as int)[j]);
                                        }
                                    }
                                }
                                assert forall|i: int| 0 <= i < longer.len() implies {
                                    &&& outcome(g2.nodes[(#[trigger] longer[i]) as int]) is Ok
                                    &&& d.next(handed(g2.nodes, longer, i)) == StepSpec::Read(longer[i])
                                } by {
                                    assert(longer.contains(longer[i]));
                                    if i < reads.len() {
                                        assert(longer[i] == reads[i]);
                                    }
                                }
                            }
                        },
                        Err(fault) => {
                            proof {
                                assert(replays(d, g2.nodes, longer)) by {
                                    assert forall|i: int| 0 <= i < longer.len() implies {
                                        &&& #[trigger] d.next(handed(g2.nodes, longer, i))
                                            == StepSpec::Read(longer[i])
                                        &&& i < longer.len() - 1 ==> outcome(g2.nodes[longer[i] as int]) is Ok
                                    } by {
                                        assert(longer.contains(longer[i]));
                                        if i < reads.len() {
                                            assert(longer[i] == reads[i]);
                                        }
                                    }
                                }
                                assert(keeps(a.nodes[n as int], g2.nodes[n as int]) || settled_from(
                                    a.nodes[n as int],
                                    g2.nodes[n as int],
                                    g2.nodes,
                                ));
                            }
                            return Ok(
                                Verdict { status: Status::Errored(fault), channel: None, launch: false },
                            );
                        },
                    }
                },
            }
        }
    }
}

impl<D: Derivation> Graph<D> {
    /// Looks at the trigger `t` of the running resource `n`, whose frame is
    /// on top of the tracker, and says what that makes of the resource.
    pub(crate) fn refresh(&mut self, n: NodeId, t: NodeId) -> (r: Result<Verdict, Fault>)
        requires
            steady(old(self)@),
            n < old(self)@.nodes.len(),
            old(self)@.nodes[n as int].phase is Running,
            old(self)@.nodes[n as int].role == Role::<D>::Resource(t),
            old(self)@.frames.len() > 0,
            old(self)@.frames.last() == (FrameSpec { owner: Owner::Node(n), reads: Seq::empty() }),
            beside(old(self)@.nodes, n as int),
        ensures
            steady(final(self)@),
            advanced(old(self)@, final(self)@),
            framed(final(self)@.frames, old(self)@.frames.drop_last(), n),
            r is Ok ==> {
                let now = refreshed(old(self)@.nodes[n as int], outcome(final(self)@.nodes[t as int]));
                &&& t < old(self)@.nodes.len()
                &&& final(self)@.frames.last().reads == seq![t]
                &&& final(self)@.nodes[t as int].phase is Clean
                &&& r->Ok_0.status@ == now.status
                &&& r->Ok_0.channel is Some
                &&& view_of(r->Ok_0.channel->0.launched) == now.launched
                &&& r->Ok_0.channel->0.generation == now.generation
                &&& r->Ok_0.launch == (now.generation != old(self)@.nodes[n as int].generation)
                &&& r->Ok_0.launch ==> now.status is Pending && now.launched is Some
                &&& needed(
                    final(self)@.nodes,
                    final(self)@.journal,
                    old(self)@.journal.len() as int,
                    set![t],
                )
            },
            r is Err ==> aborts(r->Err_0@) && stuck(final(self)@.nodes, n, r->Err_0@->Cyclic_0),
            layered(old(self)@.nodes) ==> r is Ok,
        decreases count_in(old(self)@.nodes, Phase::Dirty), 2nat,
    {
        let ghost a = self@;
        proof {
            assert(coherent_at(a.nodes, n as int));
        }
        let added = self.tracker.record(t);
        let ghost g1 = self@;
        proof {
            assert(added);
            assert(g1.frames.last().reads =~= seq![t]);
            assert(g1.frames.drop_last() =~= a.frames.drop_last());
            assert(g1 == (GraphSpec { frames: g1.frames, ..a }));
            lemma_advanced_refl(a);
            if layered(a.nodes) {
                assert(a.nodes[n as int].role is Resource);
                assert(t < n);
            }
        }
        match self.demand(t) {
            Err(fault) => {
                proof {
                    let g2 = self@;
                    assert(keeps(a.nodes[n as int], g2.nodes[n as int]) || settled_from(
                        a.nodes[n as int],
                        g2.nodes[n as int],
                        g2.nodes,
                    ));
                    assert(asks(g2.nodes, n, t));
                }
                return Err(fault);
            },
            Ok(()) => {},
        }
        proof {
            let g2 = self@;
            assert(keeps(a.nodes[n as int], g2.nodes[n as int]) || settled_from(
                a.nodes[n as int],
                g2.nodes[n as int],
                g2.nodes,
            ));
        }
        let generation: u64 = self.nodes[n].generation;
        match self.outcome_of(t) {
            Err(fault) => Ok(
                Verdict {
                    status: Status::Errored(fault),
                    channel: Some(Channel { launched: None, generation }),
                    launch: false,
                },
            ),
            Ok(v) => {
                let restart = match (&self.nodes[n].status, &self.nodes[n].launched) {
                    (Status::Idle, _) => true,
                    (_, None) => true,
                    (_, Some(w)) => !w.same(&v),
                };
                if restart {
                    if generation == u64::MAX {
                        Ok(
                            Verdict {
                                status: Status::Errored(Fault::Exhausted),
                                channel: Some(Channel { launched: Some(v), generation }),
                                launch: false,
                            },
                        )
                    } else {
                        Ok(
                            Verdict {
                                status: Status::Pending,
                                channel: Some(Channel { launched: Some(v), generation: generation + 1 }),
                                launch: true,
                            },
                        )
                    }
                } else {
                    Ok(
                        Verdict {
                            status: self.nodes[n].status.clone(),
                            channel: Some(Channel { launched: copy_of(&self.nodes[n].launched), generation }),
                            launch: false,
                        },
                    )
                }
            },
        }
    }

    /// Writes down what an evaluation decided for node `n`: the node is
    /// clean and in the journal, and its operation, if it starts one, is in
    /// the outbox.
    pub(crate) fn settle(&mut self, n: NodeId, verdict: Verdict)
        requires
            n < old(self)@.nodes.len(),
            verdict.launch ==> verdict.channel is Some && verdict.channel->0.launched is Some,
        ensures
            final(self)@ == recorded(
                old(self)@,
                n,
                verdict.status@,
                verdict.launched(old(self)@.nodes[n as int]),
                verdict.generation(old(self)@.nodes[n as int]),
                verdict.launch,
            ),
    {
        let ghost want = recorded(
            self@,
            n,
            verdict.status@,
            verdict.launched(self@.nodes[n as int]),
            verdict.generation(self@.nodes[n as int]),
            verdict.launch,
        );
        let launch = verdict.launch;
        match &verdict.status {
            Status::Errored(Fault::UnknownNode(_)) => {
                self.dangling = true;
            },
            _ => {},
        }
        self.nodes[n].status = verdict.status;
        self.nodes[n].phase = Phase::Clean;
        self.journal.push(n);
        match verdict.channel {
            Some(Channel { launched, generation }) => {
                if launch {
                    match &launched {
                        Some(input) => {
                            self.outbox.push(
                                Launch { resource: n, generation, input: input.clone() },
                            );
                        },
                        None => {},
                    }
                }
                self.nodes[n].launched = launched;
                self.nodes[n].generation = generation;
            },
            None => {},
        }
        proof {
            assert(self@.nodes =~= want.nodes);
            assert(self@.boundaries =~= want.boundaries);
            assert(self@.outbox =~= want.outbox);
        }
    }

    /// Brings the dirty node `n` up to date, and first whatever it reads
    /// that is dirty. An evaluation that comes back to a node still being
    /// evaluated is abandoned: the node stays dirty.
    pub(crate) fn evaluate(&mut self, n: NodeId) -> (r: Result<(), Fault>)
        requires
            steady(old(self)@),
            n < old(self)@.nodes.len(),
            old(self)@.nodes[n as int].phase is Dirty,
            above(old(self)@.nodes, n as int),
        ensures
            steady(final(self)@),
            advanced(old(self)@, final(self)@),
            final(self)@.frames == old(self)@.frames,
            r is Ok ==> final(self)@.nodes[n as int].phase is Clean && final(self)@.journal.len() > 0
                && final(self)@.journal.last() == n && needed(
                final(self)@.nodes,
                final(self)@.journal,
                old(self)@.journal.len() as int,
                set![n],
            ),
            r is Err ==> aborts(r->Err_0@) && final(self)@.nodes[n as int].phase is Dirty && trapped(
                final(self)@.nodes,
                n,
                r->Err_0@->Cyclic_0,
            ),
            layered(old(self)@.nodes) ==> r is Ok,
        decreases count_in(old(self)@.nodes, Phase::Dirty), 0nat,
    {
        let ghost a = self@;
        proof {
            assert(coherent_at(a.nodes, n as int));
        }
        self.set_phase(n, Phase::Running);
        self.tracker.push(Owner::Node(n));
        let ghost a1 = self@;
        proof {
            lemma_phase_sound(a.nodes, n as int, Phase::Running);
            lemma_heeded_kept(a, a1);
            lemma_count_shrinks(a.nodes, a1.nodes, Phase::Dirty, n as int);
            assert(a1.frames.drop_last() =~= a.frames);
            assert(logged(a1.nodes, a1.journal));
            assert(tidy(a1.frames));
            lemma_layered_same(a.nodes, a1.nodes);
            assert(beside(a1.nodes, n as int)) by {
                if layered(a1.nodes) {
                    assert forall|k: int|
                        0 <= k < a1.nodes.len() && (#[trigger] a1.nodes[k]).phase is Running implies k
                        >= n by {
                        if k != n {
                            assert(a.nodes[k].phase is Running);
                        }
                    }
                }
            }
        }
        let trigger: Option<NodeId> = match &self.nodes[n].role {
            Role::Resource(t) => Some(*t),
            _ => None,
        };
        let outcome = match trigger {
            Some(t) => self.refresh(n, t),
            None => self.run(n),
        };
        let ghost b = self@;
        let frame = self.tracker.pop();
        proof {
            assert(keeps(a1.nodes[n as int], b.nodes[n as int]) || settled_from(
                a1.nodes[n as int],
                b.nodes[n as int],
                b.nodes,
            ));
        }
        match (outcome, frame) {
            (Ok(verdict), Some(frame)) => {
                self.unsubscribe(n);
                self.subscribe(n, frame.reads);
                let ghost c1 = self@;
                self.settle(n, verdict);
                proof {
                    let c = self@;
                    if trigger is Some {
                        assert(seq![trigger->0].to_set() =~= set![trigger->0]) by {
                            assert(seq![trigger->0][0] == trigger->0);
                        }
                    }
                    lemma_complete(a, a1, b, c1, c, n as int);
                }
                Ok(())
            },
            (Err(fault), _) => {
                self.set_phase(n, Phase::Dirty);
                proof {
                    lemma_abandon(a, a1, b, self@, n as int);
                    let z = fault@->Cyclic_0;
                    let m = choose|m: NodeId| #[trigger] asks(b.nodes, n, m) && trapped(b.nodes, m, z);
                    lemma_trapped_grows(b.nodes, n, m, z);
                }
                Err(fault)
            },
            (Ok(_), None) => {
                self.set_phase(n, Phase::Dirty);
                Err(Fault::Cyclic(n))
            },
        }
    }
}

} // verus!
