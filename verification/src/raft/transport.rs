//! The message model between Raft nodes: a tagged event inside an envelope
//! carrying the sender's term and the two endpoints. An absent sender marks a
//! local client call; an absent receiver marks a local delivery back to a
//! client. Inbound messages are normalized and validated before a role state
//! machine acts on them.

use crate::raft::log::{clone_entry, Entry, EntryView};
use crate::store::{clone_bytes, str_eq};
use crate::Error;
use vstd::prelude::*;
use vstd::string::StringExecFns;

verus! {

/// An event carried by a message.
#[derive(Clone, Debug, PartialEq)]
pub enum Event {
    /// A leader's periodic heartbeat to its followers.
    Heartbeat { commit_index: u64, commit_term: u64 },
    /// A follower's answer to a heartbeat, confirming loyalty and reporting
    /// whether it stores the entry the leader believes committed.
    ConfirmLeader { commit_index: u64, has_committed: bool },
    /// A candidate's request for a vote, with its last stored entry.
    SolicitVote { last_index: u64, last_term: u64 },
    /// A follower's vote for a candidate.
    GrantVote,
    /// A leader's replication of entries onto a base entry.
    ReplicateEntries { base_index: u64, base_term: u64, entries: Vec<Entry> },
    /// A follower's acceptance of replicated entries, with its new last index.
    AcceptEntries { last_index: u64 },
    /// A follower's rejection of replicated entries.
    RejectEntries,
    /// A client's read of the state machine.
    ReadState { call_id: Vec<u8>, command: Vec<u8> },
    /// A client's mutation of the state machine.
    MutateState { call_id: Vec<u8>, command: Vec<u8> },
    /// The response of a state machine command.
    RespondState { call_id: Vec<u8>, response: Vec<u8> },
    /// The error response of a state machine command.
    RespondError { call_id: Vec<u8>, error: String },
}

/// The mathematical shape of an event.
pub ghost enum EventView {
    Heartbeat { commit_index: u64, commit_term: u64 },
    ConfirmLeader { commit_index: u64, has_committed: bool },
    SolicitVote { last_index: u64, last_term: u64 },
    GrantVote,
    ReplicateEntries { base_index: u64, base_term: u64, entries: Seq<EntryView> },
    AcceptEntries { last_index: u64 },
    RejectEntries,
    ReadState { call_id: Seq<u8>, command: Seq<u8> },
    MutateState { call_id: Seq<u8>, command: Seq<u8> },
    RespondState { call_id: Seq<u8>, response: Seq<u8> },
    RespondError { call_id: Seq<u8>, error: Seq<char> },
}

impl View for Event {
    type V = EventView;

    open spec fn view(&self) -> EventView {
        match self {
            Event::Heartbeat { commit_index, commit_term } => EventView::Heartbeat {
                commit_index: *commit_index,
                commit_term: *commit_term,
            },
            Event::ConfirmLeader { commit_index, has_committed } => EventView::ConfirmLeader {
                commit_index: *commit_index,
                has_committed: *has_committed,
            },
            Event::SolicitVote { last_index, last_term } => EventView::SolicitVote {
                last_index: *last_index,
                last_term: *last_term,
            },
            Event::GrantVote => EventView::GrantVote,
            Event::ReplicateEntries { base_index, base_term, entries } => EventView::ReplicateEntries {
                base_index: *base_index,
                base_term: *base_term,
                entries: entries@.map_values(|e: Entry| e@),
            },
            Event::AcceptEntries { last_index } => EventView::AcceptEntries {
                last_index: *last_index,
            },
            Event::RejectEntries => EventView::RejectEntries,
            Event::ReadState { call_id, command } => EventView::ReadState {
                call_id: call_id@,
                command: command@,
            },
            Event::MutateState { call_id, command } => EventView::MutateState {
                call_id: call_id@,
                command: command@,
            },
            Event::RespondState { call_id, response } => EventView::RespondState {
                call_id: call_id@,
                response: response@,
            },
            Event::RespondError { call_id, error } => EventView::RespondError {
                call_id: call_id@,
                error: error@,
            },
        }
    }
}

/// The call ID carried by an event, if the event belongs to a client call.
pub open spec fn event_call_id(e: EventView) -> Option<Seq<u8>> {
    match e {
        EventView::ReadState { call_id, .. } => Some(call_id),
        EventView::MutateState { call_id, .. } => Some(call_id),
        EventView::RespondState { call_id, .. } => Some(call_id),
        EventView::RespondError { call_id, .. } => Some(call_id),
        _ => None,
    }
}

/// Copies a list of entries.
pub fn clone_entries(es: &Vec<Entry>) -> (r: Vec<Entry>)
    ensures
        r@.map_values(|e: Entry| e@) == es@.map_values(|e: Entry| e@),
{
    let mut out: Vec<Entry> = Vec::new();
    let mut i: usize = 0;
    while i < es.len()
        invariant
            i <= es@.len(),
            out@.len() == i,
            forall|j: int| 0 <= j < i ==> (#[trigger] out@[j])@ == es@[j]@,
        decreases es@.len() - i,
    {
        let ghost prev = out@;
        out.push(clone_entry(&es[i]));
        i = i + 1;
        proof {
            assert(forall|j: int| 0 <= j < prev.len() ==> #[trigger] out@[j] == prev[j]);
        }
    }
    proof {
        assert(out@.map_values(|e: Entry| e@) =~= es@.map_values(|e: Entry| e@));
    }
    out
}

/// Copies an event.
pub fn clone_event(e: &Event) -> (r: Event)
    ensures
        r@ == e@,
{
    match e {
        Event::Heartbeat { commit_index, commit_term } => Event::Heartbeat {
            commit_index: *commit_index,
            commit_term: *commit_term,
        },
        Event::ConfirmLeader { commit_index, has_committed } => Event::ConfirmLeader {
            commit_index: *commit_index,
            has_committed: *has_committed,
        },
        Event::SolicitVote { last_index, last_term } => Event::SolicitVote {
            last_index: *last_index,
            last_term: *last_term,
        },
        Event::GrantVote => Event::GrantVote,
        Event::ReplicateEntries { base_index, base_term, entries } => Event::ReplicateEntries {
            base_index: *base_index,
            base_term: *base_term,
            entries: clone_entries(entries),
        },
        Event::AcceptEntries { last_index } => Event::AcceptEntries { last_index: *last_index },
        Event::RejectEntries => Event::RejectEntries,
        Event::ReadState { call_id, command } => Event::ReadState {
            call_id: clone_bytes(call_id),
            command: clone_bytes(command),
        },
        Event::MutateState { call_id, command } => Event::MutateState {
            call_id: clone_bytes(call_id),
            command: clone_bytes(command),
        },
        Event::RespondState { call_id, response } => Event::RespondState {
            call_id: clone_bytes(call_id),
            response: clone_bytes(response),
        },
        Event::RespondError { call_id, error } => Event::RespondError {
            call_id: clone_bytes(call_id),
            error: error.clone(),
        },
    }
}

impl Event {
    /// The call ID carried by the event, if it belongs to a client call.
    pub fn call_id(&self) -> (r: Option<Vec<u8>>)
        ensures
            match event_call_id(self@) {
                Some(k) => r matches Some(v) && v@ == k,
                None => r is None,
            },
    {
        match self {
            Event::ReadState { call_id, .. } => Some(clone_bytes(call_id)),
            Event::MutateState { call_id, .. } => Some(clone_bytes(call_id)),
            Event::RespondState { call_id, .. } => Some(clone_bytes(call_id)),
            Event::RespondError { call_id, .. } => Some(clone_bytes(call_id)),
            _ => None,
        }
    }
}

/// A message passed between Raft nodes, or between a node and a local client.
#[derive(Debug, PartialEq)]
pub struct Message {
    /// The current term of the sender.
    pub term: u64,
    /// The sending node, or `None` for a local client.
    pub from: Option<String>,
    /// The receiving node, or `None` for a local delivery.
    pub to: Option<String>,
    /// The event.
    pub event: Event,
}

/// The mathematical shape of a message.
pub ghost struct MessageView {
    pub term: u64,
    pub from: Option<Seq<char>>,
    pub to: Option<Seq<char>>,
    pub event: EventView,
}

impl View for Message {
    type V = MessageView;

    open spec fn view(&self) -> MessageView {
        MessageView {
            term: self.term,
            from: match self.from {
                Some(ref s) => Some(s@),
                None => None,
            },
            to: match self.to {
                Some(ref s) => Some(s@),
                None => None,
            },
            event: self.event@,
        }
    }
}

/// A normalized message: addressed to the node, and carrying its term where
/// the sender left the term at zero.
pub open spec fn normalized(m: MessageView, node_id: Seq<char>, term: u64) -> MessageView {
    MessageView {
        term: if m.term == 0 {
            term
        } else {
            m.term
        },
        from: m.from,
        to: Some(node_id),
        event: m.event,
    }
}

/// A message a node may act on: local calls must carry a call ID, the term
/// must not be stale, and the receiver must be this node.
pub open spec fn message_valid(m: MessageView, node_id: Seq<char>, term: u64) -> bool {
    &&& !(m.from is None && event_call_id(m.event) is None)
    &&& m.term >= term
    &&& m.to == Some(node_id)
}

impl Message {
    /// Normalizes the message for the receiving node: addresses it to the
    /// node, and fills a zero term in with the node's.
    pub fn normalize(&mut self, node_id: &str, term: u64)
        ensures
            final(self)@ == normalized(old(self)@, node_id@, term),
    {
        self.to = Some(node_id.to_owned());
        if self.term == 0 {
            self.term = term;
        }
    }

    /// Validates the message against the receiving node; an invalid message
    /// is dropped by the caller, never acted on.
    pub fn validate(&self, node_id: &str, term: u64) -> (r: Result<(), Error>)
        ensures
            r is Ok <==> message_valid(self@, node_id@, term),
            r matches Err(e) ==> e matches Error::Network(_),
    {
        if self.from.is_none() && self.event.call_id().is_none() {
            return Err(Error::Network("received a local event without a call ID".to_owned()));
        }
        if self.term < term {
            return Err(Error::Network("message from a stale term".to_owned()));
        }
        match &self.to {
            Some(to) => {
                if !str_eq(to.as_str(), node_id) {
                    return Err(Error::Network("message addressed to another node".to_owned()));
                }
            },
            None => {
                return Err(Error::Network("message addressed to a local client".to_owned()));
            },
        }
        Ok(())
    }
}

} // verus!
