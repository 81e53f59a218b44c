//! Derivations: the pure functions by which computed nodes get their values.
//!
//! A derivation never touches the graph. It is asked, step by step, what it
//! does next given the values it has been handed so far: it names one more
//! node to read, or it finishes. The graph does the reading, so it knows
//! exactly which nodes each evaluation depended on.

use vstd::prelude::*;
use crate::value::{views, NodeId, Value, ValueSpec};

verus! {

/// What a derivation does next.
#[derive(Debug, PartialEq, Eq)]
pub enum Step {
    /// It needs the value of this node.
    Read(NodeId),
    /// It has its result.
    Done(Value),
    /// It gives up, with a message.
    Fail(String),
}

/// The mathematical content of a [`Step`].
pub ghost enum StepSpec {
    Read(NodeId),
    Done(ValueSpec),
    Fail(Seq<char>),
}

impl View for Step {
    type V = StepSpec;

    open spec fn view(&self) -> StepSpec {
        match self {
            Step::Read(n) => StepSpec::Read(*n),
            Step::Done(v) => StepSpec::Done(v@),
            Step::Fail(m) => StepSpec::Fail(m@),
        }
    }
}

/// A pure function over the values of other nodes.
///
/// `next` is the function itself; `step` computes it. Because the next step
/// depends on nothing but the values seen so far, a derivation may read
/// different nodes from one evaluation to the next, and the values it was
/// given determine its result.
pub trait Derivation {
    /// What the derivation does after it has been given `seen`, the values of
    /// the nodes it asked for, in the order in which it asked. Unless an
    /// implementation says otherwise, it ends at once with nothing.
    open spec fn next(&self, seen: Seq<ValueSpec>) -> StepSpec {
        StepSpec::Done(ValueSpec::Nothing)
    }

    fn step(&self, seen: &Vec<Value>) -> (s: Step)
        ensures
            s@ == self.next(views(seen@)),
    ;
}

/// The remainder of `x` by `d` with the sign of `x`, as `%` computes it on
/// machine integers.
pub open spec fn remainder(x: int, d: int) -> int
    recommends
        d != 0,
{
    let m = if d < 0 { -d } else { d };
    if x == 0 {
        0
    } else if x > 0 {
        x % m
    } else {
        -((-x) % m)
    }
}

pub open spec fn fits(x: int) -> bool {
    i64::MIN <= x <= i64::MAX
}

/// The result of a formula on an integer, or the failure message.
pub open spec fn int_or(x: int) -> StepSpec {
    if fits(x) {
        StepSpec::Done(ValueSpec::Int(x as i64))
    } else {
        StepSpec::Fail("arithmetic overflow"@)
    }
}

/// The small derivations that a user interface is made of.
#[derive(Debug, Clone, Copy, PartialEq, Eq)]
pub enum Formula {
    /// The source times a constant.
    Scaled { source: NodeId, factor: i64 },
    /// The source plus a constant.
    Shifted { source: NodeId, offset: i64 },
    /// The remainder of the source by a constant, with the sign of the source.
    Remainder { source: NodeId, modulus: i64 },
    /// Whether the source is this integer.
    Equals { source: NodeId, expected: i64 },
    /// Whether the source is greater than a bound.
    Exceeds { source: NodeId, bound: i64 },
    /// The opposite of a flag.
    Negated { source: NodeId },
    /// The source while the switch is on, nothing while it is off. The source
    /// is read only while the switch is on.
    Gated { switch: NodeId, source: NodeId },
}

impl Formula {
    /// The node that the formula reads first.
    pub open spec fn first(self) -> NodeId {
        match self {
            Formula::Scaled { source, .. } => source,
            Formula::Shifted { source, .. } => source,
            Formula::Remainder { source, .. } => source,
            Formula::Equals { source, .. } => source,
            Formula::Exceeds { source, .. } => source,
            Formula::Negated { source } => source,
            Formula::Gated { switch, .. } => switch,
        }
    }

    /// What the formula does once it has the value of its first node.
    pub open spec fn after_first(self, v: ValueSpec) -> StepSpec {
        match self {
            Formula::Scaled { factor, .. } => match v {
                ValueSpec::Int(x) => int_or(x * factor),
                _ => StepSpec::Fail("not an integer"@),
            },
            Formula::Shifted { offset, .. } => match v {
                ValueSpec::Int(x) => int_or(x + offset),
                _ => StepSpec::Fail("not an integer"@),
            },
            Formula::Remainder { modulus, .. } => match v {
                ValueSpec::Int(x) => if modulus == 0 {
                    StepSpec::Fail("division by zero"@)
                } else if x == i64::MIN && modulus == -1 {
                    StepSpec::Fail("arithmetic overflow"@)
                } else {
                    int_or(remainder(x as int, modulus as int))
                },
                _ => StepSpec::Fail("not an integer"@),
            },
            Formula::Equals { expected, .. } => match v {
                ValueSpec::Int(x) => StepSpec::Done(ValueSpec::Flag(x == expected)),
                _ => StepSpec::Fail("not an integer"@),
            },
            Formula::Exceeds { bound, .. } => match v {
                ValueSpec::Int(x) => StepSpec::Done(ValueSpec::Flag(x > bound)),
                _ => StepSpec::Fail("not an integer"@),
            },
            Formula::Negated { .. } => match v {
                ValueSpec::Flag(b) => StepSpec::Done(ValueSpec::Flag(!b)),
                _ => StepSpec::Fail("not a flag"@),
            },
            Formula::Gated { source, .. } => match v {
                ValueSpec::Flag(b) => if b {
                    StepSpec::Read(source)
                } else {
                    StepSpec::Done(ValueSpec::Nothing)
                },
                _ => StepSpec::Fail("not a flag"@),
            },
        }
    }

    /// Whether every node that the formula can read is older than node `id`.
    pub open spec fn below(self, id: int) -> bool {
        match self {
            Formula::Gated { switch, source } => switch < id && source < id,
            _ => self.first() < id,
        }
    }

    /// Whether every node that the formula can read is older than node `id`.
    pub fn is_below(&self, id: NodeId) -> (r: bool)
        ensures
            r == self.below(id as int),
    {
        match *self {
            Formula::Scaled { source, .. } => source < id,
            Formula::Shifted { source, .. } => source < id,
            Formula::Remainder { source, .. } => source < id,
            Formula::Equals { source, .. } => source < id,
            Formula::Exceeds { source, .. } => source < id,
            Formula::Negated { source } => source < id,
            Formula::Gated { switch, source } => switch < id && source < id,
        }
    }

    fn overflow() -> (s: Step)
        ensures
            s@ == StepSpec::Fail("arithmetic overflow"@),
    {
        Step::Fail("arithmetic overflow".to_owned())
    }

    fn wrap(x: Option<i64>) -> (s: Step)
        ensures
            s@ == match x {
                Some(i) => StepSpec::Done(ValueSpec::Int(i)),
                None => StepSpec::Fail("arithmetic overflow"@),
            },
    {
        match x {
            Some(i) => Step::Done(Value::Int(i)),
            None => Self::overflow(),
        }
    }

    fn scaled(x: i64, factor: i64) -> (s: Step)
        ensures
            s@ == int_or(x * factor),
    {
        Self::wrap(x.checked_mul(factor))
    }

    fn shifted(x: i64, offset: i64) -> (s: Step)
        ensures
            s@ == int_or(x + offset),
    {
        Self::wrap(x.checked_add(offset))
    }

    fn remaindered(x: i64, modulus: i64) -> (s: Step)
        requires
            modulus != 0,
        ensures
            s@ == if x == i64::MIN && modulus == -1 {
                StepSpec::Fail("arithmetic overflow"@)
            } else {
                int_or(remainder(x as int, modulus as int))
            },
    {
        Self::wrap(x.checked_rem(modulus))
    }

    fn on_first(&self, v: &Value) -> (s: Step)
        ensures
            s@ == self.after_first(v@),
    {
        match *self {
            Formula::Scaled { factor, .. } => match v {
                Value::Int(x) => Self::scaled(*x, factor),
                _ => Step::Fail("not an integer".to_owned()),
            },
            Formula::Shifted { offset, .. } => match v {
                Value::Int(x) => Self::shifted(*x, offset),
                _ => Step::Fail("not an integer".to_owned()),
            },
            Formula::Remainder { modulus, .. } => match v {
                Value::Int(x) => if modulus == 0 {
                    Step::Fail("division by zero".to_owned())
                } else {
                    Self::remaindered(*x, modulus)
                },
                _ => Step::Fail("not an integer".to_owned()),
            },
            Formula::Equals { expected, .. } => match v {
                Value::Int(x) => Step::Done(Value::Flag(*x == expected)),
                _ => Step::Fail("not an integer".to_owned()),
            },
            Formula::Exceeds { bound, .. } => match v {
                Value::Int(x) => Step::Done(Value::Flag(*x > bound)),
                _ => Step::Fail("not an integer".to_owned()),
            },
            Formula::Negated { .. } => match v {
                Value::Flag(b) => Step::Done(Value::Flag(!*b)),
                _ => Step::Fail("not a flag".to_owned()),
            },
            Formula::Gated { source, .. } => match v {
                Value::Flag(b) => if *b {
                    Step::Read(source)
                } else {
                    Step::Done(Value::Nothing)
                },
                _ => Step::Fail("not a flag".to_owned()),
            },
        }
    }
}

impl Derivation for Formula {
    open spec fn next(&self, seen: Seq<ValueSpec>) -> StepSpec {
        if seen.len() == 0 {
            StepSpec::Read(self.first())
        } else if seen.len() == 1 {
            self.after_first(seen[0])
        } else {
            StepSpec::Done(seen[1])
        }
    }

    fn step(&self, seen: &Vec<Value>) -> (s: Step) {
        if seen.len() == 0 {
            let first: NodeId = match *self {
                Formula::Scaled { source, .. } => source,
                Formula::Shifted { source, .. } => source,
                Formula::Remainder { source, .. } => source,
                Formula::Equals { source, .. } => source,
                Formula::Exceeds { source, .. } => source,
                Formula::Negated { source } => source,
                Formula::Gated { switch, .. } => switch,
            };
            Step::Read(first)
        } else if seen.len() == 1 {
            self.on_first(&seen[0])
        } else {
            Step::Done(seen[1].clone())
        }
    }
}

} // verus!
