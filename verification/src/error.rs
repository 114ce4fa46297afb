//! The error kinds the library reports.

use vstd::prelude::*;

verus! {

/// What went wrong: rejected input, an unsupported request, a run that
/// ended without convergence (the result is still a valid partition), a
/// failure of an external collaborator such as a mesh file, or a broken
/// internal invariant.
#[derive(Clone, Copy, PartialEq, Eq, Structural, Debug)]
pub enum Error {
    InvalidInput,
    UnsupportedCombination,
    NotConverged,
    ExternalFailure,
    Internal,
}

} // verus!
