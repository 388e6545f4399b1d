//! Diagnostics as plain data.
use vstd::prelude::*;

verus! {

/// What a diagnostic shows: the file where known, the line where known, and
/// the message. Rendering it is left to the caller.
#[derive(Clone, Debug, PartialEq, Eq)]
pub struct Report {
    pub file: Option<String>,
    pub line: Option<usize>,
    pub message: String,
}

} // verus!
