//! The logic of the demonstration widgets: a counter with three buttons,
//! and the operation behind the "shouting name" resource.

use vstd::prelude::*;
use crate::value::{Value, ValueSpec};

verus! {

/// A button of the counter widget.
#[derive(Debug, Clone, Copy, PartialEq, Eq, Structural)]
pub enum Press {
    /// Back to zero.
    Clear,
    /// One step down.
    Minus,
    /// One step up.
    Plus,
}

/// The value of a counter after a button is pressed.
pub open spec fn pressed(value: int, step: int, press: Press) -> int {
    match press {
        Press::Clear => 0,
        Press::Minus => value - step,
        Press::Plus => value + step,
    }
}

/// The state of a counter widget.
#[derive(Debug, Clone, Copy, PartialEq, Eq)]
pub struct Counter {
    value: i32,
    step: i32,
}

impl View for Counter {
    type V = (int, int);

    /// The value shown and the step.
    closed spec fn view(&self) -> (int, int) {
        (self.value as int, self.step as int)
    }
}

/// A counter that shows `initial_value` and moves by `step`.
pub fn counter(initial_value: i32, step: i32) -> (c: Counter)
    ensures
        c@ == (initial_value as int, step as int),
{
    Counter { value: initial_value, step }
}

impl Counter {
    /// The value shown.
    pub fn value(&self) -> (v: i32)
        ensures
            v == self@.0,
    {
        self.value
    }

    /// The step by which the counter moves.
    pub fn step(&self) -> (s: i32)
        ensures
            s == self@.1,
    {
        self.step
    }

    /// Whether the value after this press can still be shown.
    pub fn allows(&self, press: Press) -> (ok: bool)
        ensures
            ok == (i32::MIN <= pressed(self@.0, self@.1, press) <= i32::MAX),
    {
        match press {
            Press::Clear => true,
            Press::Minus => self.value.checked_sub(self.step).is_some(),
            Press::Plus => self.value.checked_add(self.step).is_some(),
        }
    }

    /// Presses a button.
    pub fn press(&mut self, press: Press)
        requires
            i32::MIN <= pressed(old(self)@.0, old(self)@.1, press) <= i32::MAX,
        ensures
            final(self)@ == (pressed(old(self)@.0, old(self)@.1, press), old(self)@.1),
    {
        match press {
            Press::Clear => {
                self.value = 0;
            },
            Press::Minus => {
                self.value = self.value - self.step;
            },
            Press::Plus => {
                self.value = self.value + self.step;
            },
        }
    }
}

/// The upper-case form of an ASCII lower-case letter; any other character
/// as it is.
pub open spec fn upper(c: char) -> char {
    if 97 <= c as u32 <= 122 {
        ((c as u32 - 32) as u32) as char
    } else {
        c
    }
}

/// A text with every ASCII lower-case letter in upper case.
pub open spec fn shouted(text: Seq<char>) -> Seq<char> {
    Seq::new(text.len(), |i: int| upper(text[i]))
}

/// `str::to_ascii_uppercase` of the standard library: a copy of the text in
/// which each of the letters `a` to `z` is replaced by its upper-case form
/// and every other character is kept.
#[verifier::external_body]
fn ascii_uppercase(text: &str) -> (r: String)
    ensures
        r@ == shouted(text@),
{
    text.to_ascii_uppercase()
}

/// What the operation yields on an input.
pub open spec fn api_result(input: ValueSpec) -> Result<ValueSpec, Seq<char>> {
    match input {
        ValueSpec::Text(name) => Ok(ValueSpec::Text(shouted(name))),
        _ => Err("not a text"@),
    }
}

/// The operation of the "shouting name" resource, without its delay: a
/// name comes back in upper case; anything but a text is rejected.
pub fn important_api_call(input: &Value) -> (r: Result<Value, String>)
    ensures
        crate::resource::ending(r) == api_result(input@),
{
    match input {
        Value::Text(name) => Ok(Value::Text(ascii_uppercase(name.as_str()))),
        _ => Err("not a text".to_owned()),
    }
}

} // verus!
