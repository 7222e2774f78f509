//! End-to-end tests over a single-node cluster, the key/value state machine
//! and the driver's call registry.

use mynode::raft::driver::CallRegistry;
use mynode::raft::log::Log;
use mynode::raft::node::Node;
use mynode::raft::state::State;
use mynode::raft::transport::{Event, Message};
use mynode::state::{Mutation, Read, State as KvState};
use mynode::state::{encode_mutation, encode_read};
use mynode::store::{KVMemory, Store};
use mynode::Error;

/// A state machine that records every mutation it was given.
struct TestState {
    commands: Vec<Vec<u8>>,
}

impl TestState {
    fn new() -> Self {
        TestState { commands: Vec::new() }
    }
}

impl State for TestState {
    fn mutate(&mut self, command: Vec<u8>) -> Result<Vec<u8>, Error> {
        if command.len() != 1 {
            return Err(Error::Value("Mutation payload must be 1 byte".into()));
        }
        self.commands.push(command.clone());
        Ok(vec![0xff, command[0]])
    }

    fn read(&self, command: Vec<u8>) -> Result<Vec<u8>, Error> {
        if command.len() != 1 {
            return Err(Error::Value("Read payload must be 1 byte".into()));
        }
        let index = command[0] as usize;
        Ok(vec![
            0xbb,
            self.commands.get(index - 1).map(|c| c[0]).unwrap_or(0x00),
        ])
    }
}

fn mutate_msg(call_id: u8, command: u8) -> Message {
    Message {
        from: None,
        to: None,
        term: 0,
        event: Event::MutateState { call_id: vec![call_id], command: vec![command] },
    }
}

#[test]
// A single-node cluster commits and applies a mutation on its own, and
// answers the local caller with the mutation's output.
fn single_node_commit() {
    let node = Node::new("a", vec![], KVMemory::new(), TestState::new()).unwrap();
    let mut node = node.step(mutate_msg(0x07, 0x01)).unwrap();
    let outbox = node.take_outbox();
    assert_eq!(
        outbox,
        vec![Message {
            from: Some("a".into()),
            to: None,
            term: 1,
            event: Event::RespondState { call_id: vec![0x07], response: vec![0xff, 0x01] },
        }]
    );
    assert_eq!((1, 1), node.get_last());
    assert_eq!((1, 1), node.get_applied());
}

#[test]
// Mutating twice applies the command twice; the second response reflects the
// state the first mutation left.
fn mutate_twice_single_node() {
    let node = Node::new("a", vec![], KVMemory::new(), TestState::new()).unwrap();
    let mut node = node.step(mutate_msg(0x07, 0x05)).unwrap();
    let _ = node.take_outbox();
    let mut node = node.step(mutate_msg(0x08, 0x05)).unwrap();
    let outbox = node.take_outbox();
    assert_eq!(
        outbox,
        vec![Message {
            from: Some("a".into()),
            to: None,
            term: 1,
            event: Event::RespondState { call_id: vec![0x08], response: vec![0xff, 0x05] },
        }]
    );
    assert_eq!((2, 1), node.get_last());
    assert_eq!((2, 1), node.get_applied());

    // A read of the second slot sees the command the second mutation stored.
    let mut node = node
        .step(Message {
            from: None,
            to: None,
            term: 0,
            event: Event::ReadState { call_id: vec![0x09], command: vec![0x02] },
        })
        .unwrap();
    assert_eq!(
        node.take_outbox(),
        vec![Message {
            from: Some("a".into()),
            to: None,
            term: 1,
            event: Event::RespondState { call_id: vec![0x09], response: vec![0xbb, 0x05] },
        }]
    );
}

#[test]
// The key/value state machine sets and reads keys through encoded commands.
fn kv_state_machine_set_get() {
    let mut state = KvState::new(KVMemory::new());
    let set = encode_mutation(&Mutation::Put { key: "x".into(), value: vec![0x05, 0x06] });
    assert_eq!(Ok(vec![]), state.mutate_command(set));

    let get = encode_read(&Read::Get("x".into()));
    assert_eq!(Ok(vec![0x01, 0x05, 0x06]), state.read_command(get));

    let missing = encode_read(&Read::Get("y".into()));
    assert_eq!(Ok(vec![0x00]), state.read_command(missing));
}

#[test]
// Malformed commands are rejected, not applied.
fn kv_state_machine_malformed() {
    let mut state = KvState::new(KVMemory::new());
    assert!(matches!(state.mutate_command(vec![0x99]), Err(Error::Value(_))));
    assert!(matches!(state.read_command(vec![]), Err(Error::Value(_))));
}

#[test]
// A single-node leader answers reads immediately and linearizably.
fn single_node_read() {
    let node = Node::new("a", vec![], KVMemory::new(), KvState::new(KVMemory::new())).unwrap();
    let set = encode_mutation(&Mutation::Put { key: "k".into(), value: vec![0x2a] });
    let mut node = node
        .step(Message {
            from: None,
            to: None,
            term: 0,
            event: Event::MutateState { call_id: vec![0x01], command: set },
        })
        .unwrap();
    let _ = node.take_outbox();
    let get = encode_read(&Read::Get("k".into()));
    let mut node = node
        .step(Message {
            from: None,
            to: None,
            term: 0,
            event: Event::ReadState { call_id: vec![0x02], command: get },
        })
        .unwrap();
    assert_eq!(
        node.take_outbox(),
        vec![Message {
            from: Some("a".into()),
            to: None,
            term: 1,
            event: Event::RespondState { call_id: vec![0x02], response: vec![0x01, 0x2a] },
        }]
    );
}

#[test]
// Recovery refuses a store whose applied watermark points past the stored
// prefix of entries.
fn recovery_refuses_applied_beyond_prefix() {
    let mut store = KVMemory::new();
    store
        .set("apply_index", mynode::codec::encode_u64(5))
        .unwrap();
    assert!(matches!(
        Log::new(store),
        Err(Error::Internal(_))
    ));
}

#[test]
// Recovery refuses a store whose applied watermark is malformed.
fn recovery_refuses_malformed_watermark() {
    let mut store = KVMemory::new();
    store.set("apply_index", vec![0x99, 0x01]).unwrap();
    assert!(matches!(
        Log::new(store),
        Err(Error::Internal(_))
    ));
}

#[test]
// The election timeout is drawn fresh from the configured window, not fixed.
fn election_timeout_in_window() {
    let mut seen = Vec::new();
    for _ in 0..64 {
        let node: Node<KVMemory, TestState> = Node::new(
            "a",
            vec!["b".into()],
            KVMemory::new(),
            TestState::new(),
        )
        .unwrap();
        let timeout = node.election_timeout().unwrap();
        assert!((8..=15).contains(&timeout));
        if !seen.contains(&timeout) {
            seen.push(timeout);
        }
    }
    assert!(seen.len() > 1, "the timeout never varied");
}

#[test]
// A failing mutation is answered with its error, applies exactly once, and
// the leader moves on to later commands.
fn mutate_error_answered() {
    let node = Node::new("a", vec![], KVMemory::new(), TestState::new()).unwrap();
    // A two-byte payload, which this state machine rejects.
    let mut node = node
        .step(Message {
            from: None,
            to: None,
            term: 0,
            event: Event::MutateState { call_id: vec![0x0a], command: vec![0x01, 0x02] },
        })
        .unwrap();
    let outbox = node.take_outbox();
    assert_eq!(outbox.len(), 1);
    assert!(matches!(outbox[0].event, Event::RespondError { .. }));
    assert_eq!(outbox[0].to, None);
    assert_eq!((1, 1), node.get_last());
    assert_eq!((1, 1), node.get_applied());
    assert!(matches!(node, Node::Leader(_)));

    let mut node = node.step(mutate_msg(0x0b, 0x05)).unwrap();
    assert_eq!(
        node.take_outbox(),
        vec![Message {
            from: Some("a".into()),
            to: None,
            term: 1,
            event: Event::RespondState { call_id: vec![0x0b], response: vec![0xff, 0x05] },
        }]
    );
}

#[test]
// The driver hands out a fresh call ID per call, and a response settles a
// call at most once.
fn call_registry_at_most_once() {
    let mut registry = CallRegistry::new();
    let a = registry.new_call().unwrap();
    let b = registry.new_call().unwrap();
    assert_ne!(a, b);
    assert!(registry.complete(&a));
    assert!(!registry.complete(&a));
    assert!(registry.complete(&b));
    assert!(!registry.complete(&b));
}
