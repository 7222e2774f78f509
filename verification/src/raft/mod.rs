//! The Raft replication core: the persistent log, the message model, the
//! state machine contract and the role state machine.

pub mod driver;
pub mod log;
pub mod node;
pub mod state;
pub mod transport;
