//! The dependency tracker: a stack of evaluation frames.
//!
//! Whoever evaluates something pushes a frame, and every node read until the
//! matching pop is recorded in the frame on top. A nested evaluation pushes
//! its own frame, so its reads are never charged to the evaluation around it.
//! A frame's reads hold each node once, in the order of first reading.

use vstd::prelude::*;
use crate::value::NodeId;

verus! {

/// Whose evaluation a frame belongs to.
#[derive(Debug, Clone, Copy, PartialEq, Eq, Structural)]
pub enum Owner {
    /// A computation or resource node.
    Node(NodeId),
    /// A boundary, by its number.
    Boundary(usize),
}

/// One evaluation in progress, and the nodes read in it so far.
#[derive(Debug)]
pub struct Frame {
    pub owner: Owner,
    pub reads: Vec<NodeId>,
}

/// The mathematical content of a [`Frame`].
pub ghost struct FrameSpec {
    pub owner: Owner,
    pub reads: Seq<NodeId>,
}

impl View for Frame {
    type V = FrameSpec;

    open spec fn view(&self) -> FrameSpec {
        FrameSpec { owner: self.owner, reads: self.reads@ }
    }
}

/// Whether `id` occurs in `list`.
pub fn holds(list: &Vec<NodeId>, id: NodeId) -> (r: bool)
    ensures
        r == list@.contains(id),
{
    let mut i: usize = 0;
    while i < list.len()
        invariant
            i <= list.len(),
            forall|j: int| 0 <= j < i ==> list@[j] != id,
        decreases list.len() - i,
    {
        if list[i] == id {
            return true;
        }
        i += 1;
    }
    false
}

/// The stack of frames, innermost last.
pub struct Tracker {
    frames: Vec<Frame>,
}

impl View for Tracker {
    type V = Seq<FrameSpec>;

    closed spec fn view(&self) -> Seq<FrameSpec> {
        Seq::new(self.frames@.len(), |i: int| self.frames@[i]@)
    }
}

/// Every frame holds each node at most once.
pub open spec fn tidy(frames: Seq<FrameSpec>) -> bool {
    forall|i: int| 0 <= i < frames.len() ==> (#[trigger] frames[i]).reads.no_duplicates()
}

impl Tracker {
    /// A tracker with no evaluation in progress.
    pub fn new() -> (t: Tracker)
        ensures
            t@ == Seq::<FrameSpec>::empty(),
    {
        let t = Tracker { frames: Vec::new() };
        assert(t@ =~= Seq::<FrameSpec>::empty());
        t
    }

    /// How many evaluations are in progress.
    pub fn depth(&self) -> (d: usize)
        ensures
            d == self@.len(),
    {
        self.frames.len()
    }

    /// Begins an evaluation: a new, empty frame on top.
    pub fn push(&mut self, owner: Owner)
        ensures
            final(self)@ == old(self)@.push(FrameSpec { owner, reads: Seq::empty() }),
    {
        self.frames.push(Frame { owner, reads: Vec::new() });
        assert(self@ =~= old(self)@.push(FrameSpec { owner, reads: Seq::empty() }));
    }

    /// Records that `id` was read, in the frame on top. Says whether that
    /// added it: not if no evaluation is in progress, nor if the frame
    /// already holds it.
    pub fn record(&mut self, id: NodeId) -> (added: bool)
        ensures
            added == (old(self)@.len() > 0 && !old(self)@.last().reads.contains(id)),
            added ==> final(self)@ == old(self)@.update(
                old(self)@.len() - 1,
                FrameSpec {
                    owner: old(self)@.last().owner,
                    reads: old(self)@.last().reads.push(id),
                },
            ),
            !added ==> final(self)@ == old(self)@,
            tidy(old(self)@) ==> tidy(final(self)@),
    {
        let depth: usize = self.frames.len();
        if depth == 0 {
            return false;
        }
        if holds(&self.frames[depth - 1].reads, id) {
            return false;
        }
        self.frames[depth - 1].reads.push(id);
        assert(self@ =~= old(self)@.update(
            old(self)@.len() - 1,
            FrameSpec {
                owner: old(self)@.last().owner,
                reads: old(self)@.last().reads.push(id),
            },
        ));
        assert(tidy(old(self)@) ==> tidy(self@)) by {
            if tidy(old(self)@) {
                let before = old(self)@.last().reads;
                assert(before.no_duplicates());
                assert(before.push(id).no_duplicates());
            }
        }
        true
    }

    /// Ends the innermost evaluation and hands out its frame, if there is one.
    pub fn pop(&mut self) -> (frame: Option<Frame>)
        ensures
            old(self)@.len() == 0 ==> frame is None && final(self)@ == old(self)@,
            old(self)@.len() > 0 ==> frame is Some && frame->0@ == old(self)@.last()
                && final(self)@ == old(self)@.drop_last(),
    {
        let frame = self.frames.pop();
        assert(old(self)@.len() > 0 ==> self@ =~= old(self)@.drop_last());
        assert(old(self)@.len() == 0 ==> self@ =~= old(self)@);
        frame
    }

    /// The owner of the innermost evaluation, if one is in progress.
    pub fn current(&self) -> (owner: Option<Owner>)
        ensures
            owner == if self@.len() > 0 {
                Some(self@.last().owner)
            } else {
                None
            },
    {
        let depth: usize = self.frames.len();
        if depth == 0 {
            None
        } else {
            Some(self.frames[depth - 1].owner)
        }
    }
}

} // verus!
