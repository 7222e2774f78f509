//! A small replicated key/value store core: a Raft consensus group's
//! persistent log, role state machine and message model, with a pluggable
//! ordered store beneath and a pluggable state machine above. The modules
//! under `raft` hold the replication core; `store` the key/value store
//! abstraction; `codec` the byte codec the log persists with; `state` the
//! default key/value state machine.

pub mod codec;
pub mod raft;
pub mod state;
pub mod store;

use vstd::prelude::*;

verus! {

/// The error type shared by the log, the roles and the state machines.
#[derive(Clone, Debug, PartialEq)]
pub enum Error {
    /// A splice saw no entry matching the given base index and term.
    RaftBaseNotFound { index: u64, term: u64 },
    Config(String),
    IO(String),
    Internal(String),
    Network(String),
    Parse(String),
    Value(String),
    NotFound,
}

impl Error {
    /// The description `message` returns.
    pub open spec fn message_view(&self) -> Seq<char> {
        match self {
            Error::RaftBaseNotFound { .. } => "base entry not found"@,
            Error::Config(s) => s@,
            Error::IO(s) => s@,
            Error::Internal(s) => s@,
            Error::Network(s) => s@,
            Error::Parse(s) => s@,
            Error::Value(s) => s@,
            Error::NotFound => "not found"@,
        }
    }

    /// A short description of the error, for responses and operators.
    pub fn message(&self) -> (r: String)
        ensures
            r@ == self.message_view(),
    {
        match self {
            Error::RaftBaseNotFound { .. } => "base entry not found".to_owned(),
            Error::Config(s) => s.clone(),
            Error::IO(s) => s.clone(),
            Error::Internal(s) => s.clone(),
            Error::Network(s) => s.clone(),
            Error::Parse(s) => s.clone(),
            Error::Value(s) => s.clone(),
            Error::NotFound => "not found".to_owned(),
        }
    }
}

} // verus!
