//! Error kinds and the problem selector handed in by the driver.
use vstd::prelude::*;

verus! {

/// Why a run could not produce an answer.
#[derive(Debug, PartialEq, Eq)]
pub enum AppError {
    /// The day, the part or the input file was not given.
    MissingArgument,
    /// The input breaks the guarantees the solvers assume, or is malformed.
    BadInput,
    /// Reading the input failed; carries the reader's message.
    IOError(String),
}

/// The problem to solve and the file that holds its input.
#[derive(Debug)]
pub struct InputArgs {
    pub problem_num: (usize, usize),
    pub input_file: String,
}

} // verus!
