//! Errors reported by passes.
use vstd::prelude::*;

verus! {

/// Why a pass refused a program.
#[derive(Debug)]
pub enum Error {
    /// The control program is not in the shape that the pass expects.
    MalformedControl(String),
    /// The structure of the component is not in the shape that the pass
    /// expects.
    MalformedStructure(String),
    /// The pass does not handle this construct yet.
    NotImplemented(String),
}

/// The result of a pass or of one of its steps.
pub type CalyxResult<T> = Result<T, Error>;

} // verus!
