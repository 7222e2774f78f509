//! Tests for elections and the leader role: winning a quorum of votes,
//! stepping down to a leader of the same term, replicating to peers, and
//! confirming linearizable reads.

use mynode::raft::node::Node;
use mynode::raft::state::State;
use mynode::raft::transport::{Event, Message};
use mynode::store::KVMemory;
use mynode::Error;

/// A state machine that records every mutation it was given.
struct TestState {
    commands: Vec<Vec<u8>>,
}

impl TestState {
    fn new() -> Self {
        TestState { commands: Vec::new() }
    }
}

impl State for TestState {
    fn mutate(&mut self, command: Vec<u8>) -> Result<Vec<u8>, Error> {
        if command.len() != 1 {
            return Err(Error::Value("Mutation payload must be 1 byte".into()));
        }
        self.commands.push(command.clone());
        Ok(vec![0xff, command[0]])
    }

    fn read(&self, command: Vec<u8>) -> Result<Vec<u8>, Error> {
        if command.len() != 1 {
            return Err(Error::Value("Read payload must be 1 byte".into()));
        }
        let index = command[0] as usize;
        Ok(vec![
            0xbb,
            self.commands.get(index - 1).map(|c| c[0]).unwrap_or(0x00),
        ])
    }
}

type TestNode = Node<KVMemory, TestState>;

/// Ticks a fresh follower "a" of peers b and c into a candidacy.
fn make_candidate() -> TestNode {
    let mut node: TestNode = Node::new(
        "a",
        vec!["b".into(), "c".into()],
        KVMemory::new(),
        TestState::new(),
    )
    .unwrap();
    let timeout = node.election_timeout().unwrap();
    for _ in 0..timeout {
        node = node.tick().unwrap();
    }
    assert!(matches!(node, Node::Candidate(_)));
    assert_eq!(node.term(), 1);
    node
}

/// Elects "a" the leader of b and c at term 1 by a vote from b.
fn make_leader() -> TestNode {
    let mut node = make_candidate();
    let outbox = node.take_outbox();
    assert_eq!(
        outbox,
        vec![
            Message {
                from: Some("a".into()),
                to: Some("b".into()),
                term: 1,
                event: Event::SolicitVote { last_index: 0, last_term: 0 },
            },
            Message {
                from: Some("a".into()),
                to: Some("c".into()),
                term: 1,
                event: Event::SolicitVote { last_index: 0, last_term: 0 },
            },
        ]
    );
    let mut node = node
        .step(Message {
            from: Some("b".into()),
            to: Some("a".into()),
            term: 1,
            event: Event::GrantVote,
        })
        .unwrap();
    assert!(matches!(node, Node::Leader(_)));
    assert_eq!(node.term(), 1);
    // The new leader anchors commit progression with a noop entry and
    // announces itself.
    assert_eq!((1, 1), node.get_last());
    assert_eq!(
        node.take_outbox(),
        vec![
            Message {
                from: Some("a".into()),
                to: Some("b".into()),
                term: 1,
                event: Event::Heartbeat { commit_index: 0, commit_term: 0 },
            },
            Message {
                from: Some("a".into()),
                to: Some("c".into()),
                term: 1,
                event: Event::Heartbeat { commit_index: 0, commit_term: 0 },
            },
        ]
    );
    node
}

#[test]
fn election_on_timeout_wins_with_quorum() {
    let node = make_leader();
    assert_eq!((0, 0), node.get_committed());
}

#[test]
fn candidate_steps_down_to_heartbeat() {
    let mut node = make_candidate();
    let _ = node.take_outbox();
    let mut node = node
        .step(Message {
            from: Some("b".into()),
            to: Some("a".into()),
            term: 1,
            event: Event::Heartbeat { commit_index: 0, commit_term: 0 },
        })
        .unwrap();
    assert!(matches!(node, Node::Follower(_)));
    assert_eq!(node.term(), 1);
    assert_eq!(node.leader().as_deref(), Some("b"));
    assert_eq!(
        node.take_outbox(),
        vec![Message {
            from: Some("a".into()),
            to: Some("b".into()),
            term: 1,
            event: Event::ConfirmLeader { commit_index: 0, has_committed: true },
        }]
    );
}

#[test]
fn leader_replicates_and_commits_on_quorum() {
    let mut node = make_leader();
    let _ = node.take_outbox();
    let mut node = node
        .step(Message {
            from: None,
            to: None,
            term: 0,
            event: Event::MutateState { call_id: vec![0x09], command: vec![0x42] },
        })
        .unwrap();
    // The command is appended but not yet committed: no quorum stores it.
    assert_eq!((2, 1), node.get_last());
    assert_eq!((0, 0), node.get_committed());
    let outbox = node.take_outbox();
    assert_eq!(outbox.len(), 2);
    for msg in &outbox {
        assert!(matches!(msg.event, Event::ReplicateEntries { .. }));
    }

    // One acceptance makes a majority of the three nodes.
    let mut node = node
        .step(Message {
            from: Some("b".into()),
            to: Some("a".into()),
            term: 1,
            event: Event::AcceptEntries { last_index: 2 },
        })
        .unwrap();
    assert_eq!((2, 1), node.get_committed());
    assert_eq!((2, 1), node.get_applied());
    assert_eq!(
        node.take_outbox(),
        vec![Message {
            from: Some("a".into()),
            to: None,
            term: 1,
            event: Event::RespondState { call_id: vec![0x09], response: vec![0xff, 0x42] },
        }]
    );
}

#[test]
fn leader_confirms_read_on_quorum() {
    let mut node = make_leader();
    let _ = node.take_outbox();
    let mut node = node
        .step(Message {
            from: None,
            to: None,
            term: 0,
            event: Event::ReadState { call_id: vec![0x05], command: vec![0x01] },
        })
        .unwrap();
    // The read is held back until a quorum confirms the leader.
    let outbox = node.take_outbox();
    assert_eq!(outbox.len(), 2);
    for msg in &outbox {
        assert!(matches!(msg.event, Event::Heartbeat { .. }));
    }

    let mut node = node
        .step(Message {
            from: Some("b".into()),
            to: Some("a".into()),
            term: 1,
            event: Event::ConfirmLeader { commit_index: 0, has_committed: true },
        })
        .unwrap();
    assert_eq!(
        node.take_outbox(),
        vec![Message {
            from: Some("a".into()),
            to: None,
            term: 1,
            event: Event::RespondState { call_id: vec![0x05], response: vec![0xbb, 0x00] },
        }]
    );
}

#[test]
fn leader_resends_entries_on_reject() {
    let mut node = make_leader();
    let _ = node.take_outbox();
    let mut node = node
        .step(Message {
            from: Some("b".into()),
            to: Some("a".into()),
            term: 1,
            event: Event::RejectEntries,
        })
        .unwrap();
    let outbox = node.take_outbox();
    assert_eq!(outbox.len(), 1);
    assert_eq!(outbox[0].to.as_deref(), Some("b"));
    assert!(matches!(
        outbox[0].event,
        Event::ReplicateEntries { base_index: 0, base_term: 0, .. }
    ));
}
