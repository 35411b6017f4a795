//! Failures of evaluation and of edits.
use crate::float::{FloatNeed, Need};
use vstd::prelude::*;
use vstd::string::*;

verus! {

/// The mathematical content of a failure: its message, and the floating-point
/// result whose absence stopped the work, if that is what happened.
pub struct Er {
    pub msg: Seq<char>,
    pub need: Option<Need>,
}

/// A failure with a message.
pub open spec fn fail(msg: Seq<char>) -> Er {
    Er { msg, need: None }
}

/// The message that goes with a missing floating-point result.
pub open spec fn need_message() -> Seq<char> {
    "a floating-point result is not available"@
}

/// The message that goes with a missing floating-point result.
pub fn need_text() -> (r: String)
    ensures
        r@ == need_message(),
{
    "a floating-point result is not available".to_owned()
}

/// A failure for want of a floating-point result.
pub open spec fn wants(n: Need) -> Er {
    Er { msg: need_message(), need: Some(n) }
}

/// The view of an optional need.
pub open spec fn opt_need(n: Option<FloatNeed>) -> Option<Need> {
    match n {
        Some(x) => Some(x@),
        None => None,
    }
}

/// An evaluation failure (type error, unknown function, arity mismatch).
#[derive(Debug)]
pub struct EvalError {
    pub msg: String,
    pub need: Option<FloatNeed>,
}

impl View for EvalError {
    type V = Er;

    open spec fn view(&self) -> Er {
        Er { msg: self.msg@, need: opt_need(self.need) }
    }
}

impl EvalError {
    /// A failure with the message `msg`.
    pub fn new(msg: &str) -> (r: EvalError)
        ensures
            r@ == fail(msg@),
    {
        EvalError { msg: msg.to_owned(), need: None }
    }

    /// A failure with the message `msg`.
    pub fn of(msg: String) -> (r: EvalError)
        ensures
            r@ == fail(msg@),
    {
        EvalError { msg, need: None }
    }

    /// A failure for want of a floating-point result.
    pub fn wanting(need: FloatNeed) -> (r: EvalError)
        ensures
            r@ == wants(need@),
    {
        EvalError { msg: "a floating-point result is not available".to_owned(), need: Some(need) }
    }

    /// The message.
    pub fn to_string(&self) -> (r: String)
        ensures
            r@ == self@.msg,
    {
        self.msg.clone()
    }
}

/// A format-preserving edit failure (bad path, wrong type for the operation,
/// unsupported construct).
#[derive(Debug)]
pub struct EditError {
    pub msg: String,
    pub need: Option<FloatNeed>,
}

impl View for EditError {
    type V = Er;

    open spec fn view(&self) -> Er {
        Er { msg: self.msg@, need: opt_need(self.need) }
    }
}

impl EditError {
    /// A failure with the message `msg`.
    pub fn new(msg: &str) -> (r: EditError)
        ensures
            r@ == fail(msg@),
    {
        EditError { msg: msg.to_owned(), need: None }
    }

    /// A failure with the message `msg`.
    pub fn of(msg: String) -> (r: EditError)
        ensures
            r@ == fail(msg@),
    {
        EditError { msg, need: None }
    }

    /// An evaluation failure inside an edit (a right side that errors, a path
    /// that steps into the wrong type) is an edit failure with the same
    /// message.
    pub fn from_eval(e: EvalError) -> (r: EditError)
        ensures
            r@ == e@,
    {
        EditError { msg: e.msg, need: e.need }
    }

    /// The message.
    pub fn to_string(&self) -> (r: String)
        ensures
            r@ == self@.msg,
    {
        self.msg.clone()
    }
}

} // verus!
