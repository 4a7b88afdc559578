//! The refusals the domain makes.
//!
//! Storage and I/O failures belong to the caller; what is here are the
//! requests the rules themselves decline, each with the sentence shown to the
//! person who made it.

use vstd::prelude::*;

verus! {

/// A request the rules refuse, or a thing that is not there.
#[derive(Debug)]
pub enum AppError {
    /// A request the domain refuses, shown as a plain statement of fact.
    Invalid(String),
    /// Something asked for by id does not exist.
    NotFound(String),
}

/// An `Invalid` refusal whose message is exactly `msg`.
pub open spec fn is_invalid(e: AppError, msg: Seq<char>) -> bool {
    e matches AppError::Invalid(m) && m@ == msg
}

/// A refusal with a fixed sentence.
pub fn invalid(msg: &str) -> (res: AppError)
    ensures
        is_invalid(res, msg@),
{
    AppError::Invalid(msg.to_owned())
}

} // verus!
