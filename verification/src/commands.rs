//! Outcomes of the node's long-running commands. The event loop that drives
//! them performs I/O and lives with the host process, outside this crate.

use vstd::prelude::*;

verus! {

/// Outcome of the run-forever command: once the host's event loop has been
/// shut down, the command reports success and nothing else.
pub fn forever() -> (r: Result<(), String>)
    ensures
        r == Result::<(), String>::Ok(()),
{
    Ok(())
}

} // verus!
