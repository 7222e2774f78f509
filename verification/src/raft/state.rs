//! The contract between the replicated log and an application state machine:
//! reads and mutations over opaque byte commands. Implementations decide what
//! the commands mean; the log only promises to hand each committed, non-noop
//! command to `mutate` in increasing index order.

use crate::Error;
use vstd::prelude::*;

verus! {

/// A replicated state machine driven by opaque byte commands.
pub trait State {
    /// Reads from the state machine without changing it.
    fn read(&self, command: Vec<u8>) -> Result<Vec<u8>, Error>;

    /// Applies a mutation and returns its output.
    fn mutate(&mut self, command: Vec<u8>) -> Result<Vec<u8>, Error>;
}

} // verus!
