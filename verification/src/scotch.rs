//! Configuration of the external graph-solver bridge.
//!
//! The bridge hands the adjacency and integer weights to a third-party
//! solver and copies the returned labels back; the solver call itself
//! performs foreign I/O and lives with the caller.  Here live the
//! bridge's own data and the one rule it enforces: multi-criteria weight
//! vectors are rejected.

use vstd::prelude::*;
use crate::error::Error;

verus! {

/// The standard bridge configuration: how many parts the external solver
/// is asked for.
pub struct Standard {
    pub part_count: i64,
}

/// The bridge accepts exactly one weight component per element.
pub fn check_single_criterion(components: usize) -> (r: Result<(), Error>)
    ensures
        r is Ok <==> components == 1,
        r is Err ==> r == Result::<(), Error>::Err(Error::UnsupportedCombination),
{
    if components == 1 {
        Ok(())
    } else {
        Err(Error::UnsupportedCombination)
    }
}

} // verus!
