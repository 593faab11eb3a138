use vstd::prelude::*;

verus! {

/// Errors the delta core itself can produce. I/O and serialization failures
/// belong to the callers that touch files; the core only fails when a delta
/// token refers to a chunk index that the signature table does not hold.
#[derive(Debug, PartialEq, Eq, Structural)]
pub enum DiffError {
    UnknownIndex(u32),
}

} // verus!
