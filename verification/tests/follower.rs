//! Tests for the follower role: heartbeats, votes, replication, proxied
//! client calls and election timeouts.

use mynode::raft::log::{Entry, Log};
use mynode::raft::node::Node;
use mynode::raft::state::State;
use mynode::raft::transport::{Event, Message};
use mynode::store::KVMemory;
use mynode::Error;

/// A state machine that records every mutation it was given.
struct TestState {
    commands: Vec<Vec<u8>>,
}

impl TestState {
    fn new() -> Self {
        TestState { commands: Vec::new() }
    }
}

impl State for TestState {
    fn mutate(&mut self, command: Vec<u8>) -> Result<Vec<u8>, Error> {
        if command.len() != 1 {
            return Err(Error::Value("Mutation payload must be 1 byte".into()));
        }
        self.commands.push(command.clone());
        Ok(vec![0xff, command[0]])
    }

    fn read(&self, command: Vec<u8>) -> Result<Vec<u8>, Error> {
        if command.len() != 1 {
            return Err(Error::Value("Read payload must be 1 byte".into()));
        }
        let index = command[0] as usize;
        Ok(vec![
            0xbb,
            self.commands.get(index - 1).map(|c| c[0]).unwrap_or(0x00),
        ])
    }
}

type TestNode = Node<KVMemory, TestState>;

/// A follower "a" of leader "b" at term 3 among peers b, c, d and e, with
/// entries at terms 1, 1 and 2, committed through 2 and applied through 1.
fn setup() -> TestNode {
    let mut log = Log::new(KVMemory::new()).unwrap();
    log.append(Entry { term: 1, command: Some(vec![0x01]) }).unwrap();
    log.append(Entry { term: 1, command: Some(vec![0x02]) }).unwrap();
    log.append(Entry { term: 2, command: Some(vec![0x03]) }).unwrap();
    log.commit(2).unwrap();
    let mut state = TestState::new();
    log.apply(&mut state).unwrap();
    log.save_term(3, None).unwrap();
    let node = Node::new(
        "a",
        vec!["b".into(), "c".into(), "d".into(), "e".into()],
        log.into_store(),
        state,
    )
    .unwrap();
    // Adopt b as the leader and re-establish the committed watermark, which
    // is not persisted.
    let mut node = node
        .step(Message {
            from: Some("b".into()),
            to: Some("a".into()),
            term: 3,
            event: Event::Heartbeat { commit_index: 2, commit_term: 1 },
        })
        .unwrap();
    let _ = node.take_outbox();
    node
}

fn assert_messages(node: &mut TestNode, expected: Vec<Message>) {
    assert_eq!(node.take_outbox(), expected);
}

fn assert_is_follower(node: &TestNode) {
    assert!(matches!(node, Node::Follower(_)));
}

fn assert_term(node: &TestNode, term: u64) {
    assert_eq!(node.term(), term, "Unexpected node term");
    let (saved_term, _) = node.load_term().unwrap();
    assert_eq!(saved_term, term, "Incorrect term stored in log");
}

fn assert_leader(node: &TestNode, leader: Option<&str>) {
    assert_eq!(node.leader().as_deref(), leader, "Unexpected leader");
}

fn assert_voted_for(node: &TestNode, voted_for: Option<&str>) {
    assert_eq!(node.voted_for().as_deref(), voted_for, "Unexpected voted_for");
    let (_, saved_voted_for) = node.load_term().unwrap();
    assert_eq!(
        saved_voted_for.as_deref(),
        voted_for,
        "Unexpected voted_for saved in log"
    );
}

fn assert_committed(node: &TestNode, index: u64) {
    assert_eq!(node.get_committed().0, index, "Unexpected committed index");
}

fn assert_applied(node: &TestNode, index: u64) {
    assert_eq!(node.get_applied().0, index, "Unexpected applied index");
}

fn assert_entries(node: &TestNode, entries: Vec<Entry>) {
    assert_eq!(node.range(0).unwrap(), entries);
}

#[test]
// Heartbeat from current leader
fn step_heartbeat() {
    let follower = setup();
    let mut node = follower
        .step(Message {
            from: Some("b".into()),
            to: Some("a".into()),
            term: 3,
            event: Event::Heartbeat { commit_index: 3, commit_term: 2 },
        })
        .unwrap();
    assert_is_follower(&node);
    assert_term(&node, 3);
    assert_leader(&node, Some("b"));
    assert_voted_for(&node, None);
    assert_committed(&node, 3);
    assert_applied(&node, 1);
    assert_messages(
        &mut node,
        vec![Message {
            from: Some("a".into()),
            to: Some("b".into()),
            term: 3,
            event: Event::ConfirmLeader { commit_index: 3, has_committed: true },
        }],
    );
}

#[test]
// Heartbeat from current leader with conflicting commit_term
fn step_heartbeat_conflict_commit_term() {
    let follower = setup();
    let mut node = follower
        .step(Message {
            from: Some("b".into()),
            to: Some("a".into()),
            term: 3,
            event: Event::Heartbeat { commit_index: 3, commit_term: 3 },
        })
        .unwrap();
    assert_is_follower(&node);
    assert_term(&node, 3);
    assert_leader(&node, Some("b"));
    assert_voted_for(&node, None);
    assert_committed(&node, 2);
    assert_applied(&node, 1);
    assert_messages(
        &mut node,
        vec![Message {
            from: Some("a".into()),
            to: Some("b".into()),
            term: 3,
            event: Event::ConfirmLeader { commit_index: 3, has_committed: false },
        }],
    );
}

#[test]
// Heartbeat from current leader with a missing commit_index
fn step_heartbeat_missing_commit_entry() {
    let follower = setup();
    let mut node = follower
        .step(Message {
            from: Some("b".into()),
            to: Some("a".into()),
            term: 3,
            event: Event::Heartbeat { commit_index: 5, commit_term: 3 },
        })
        .unwrap();
    assert_is_follower(&node);
    assert_term(&node, 3);
    assert_leader(&node, Some("b"));
    assert_voted_for(&node, None);
    assert_committed(&node, 2);
    assert_applied(&node, 1);
    assert_messages(
        &mut node,
        vec![Message {
            from: Some("a".into()),
            to: Some("b".into()),
            term: 3,
            event: Event::ConfirmLeader { commit_index: 5, has_committed: false },
        }],
    );
}

#[test]
// Heartbeat from fake leader
fn step_heartbeat_fake_leader() {
    let follower = setup();
    let mut node = follower
        .step(Message {
            from: Some("c".into()),
            to: Some("a".into()),
            term: 3,
            event: Event::Heartbeat { commit_index: 5, commit_term: 3 },
        })
        .unwrap();
    assert_is_follower(&node);
    assert_term(&node, 3);
    assert_leader(&node, Some("b"));
    assert_voted_for(&node, None);
    assert_committed(&node, 2);
    assert_applied(&node, 1);
    assert_messages(&mut node, vec![]);
}

#[test]
// Heartbeat when no current leader
fn step_heartbeat_no_leader() {
    // A fresh follower that has not seen a leader yet.
    let mut log = Log::new(KVMemory::new()).unwrap();
    log.append(Entry { term: 1, command: Some(vec![0x01]) }).unwrap();
    log.append(Entry { term: 1, command: Some(vec![0x02]) }).unwrap();
    log.append(Entry { term: 2, command: Some(vec![0x03]) }).unwrap();
    log.commit(1).unwrap();
    let mut state = TestState::new();
    log.apply(&mut state).unwrap();
    log.save_term(3, None).unwrap();
    let node: TestNode = Node::new(
        "a",
        vec!["b".into(), "c".into(), "d".into(), "e".into()],
        log.into_store(),
        state,
    )
    .unwrap();
    let mut node = node
        .step(Message {
            from: Some("c".into()),
            to: Some("a".into()),
            term: 3,
            event: Event::Heartbeat { commit_index: 3, commit_term: 2 },
        })
        .unwrap();
    assert_is_follower(&node);
    assert_term(&node, 3);
    assert_leader(&node, Some("c"));
    assert_voted_for(&node, None);
    assert_committed(&node, 3);
    assert_applied(&node, 1);
    assert_messages(
        &mut node,
        vec![Message {
            from: Some("a".into()),
            to: Some("c".into()),
            term: 3,
            event: Event::ConfirmLeader { commit_index: 3, has_committed: true },
        }],
    );
}

#[test]
// Heartbeat from current leader with old commit_index
fn step_heartbeat_old_commit_index() {
    let follower = setup();
    let mut node = follower
        .step(Message {
            from: Some("b".into()),
            to: Some("a".into()),
            term: 3,
            event: Event::Heartbeat { commit_index: 1, commit_term: 1 },
        })
        .unwrap();
    assert_is_follower(&node);
    assert_term(&node, 3);
    assert_leader(&node, Some("b"));
    assert_voted_for(&node, None);
    assert_committed(&node, 2);
    assert_applied(&node, 1);
    assert_messages(
        &mut node,
        vec![Message {
            from: Some("a".into()),
            to: Some("b".into()),
            term: 3,
            event: Event::ConfirmLeader { commit_index: 1, has_committed: true },
        }],
    );
}

#[test]
// Heartbeat for future term with other leader changes leader
fn step_heartbeat_future_term() {
    let follower = setup();
    let mut node = follower
        .step(Message {
            from: Some("c".into()),
            to: Some("a".into()),
            term: 4,
            event: Event::Heartbeat { commit_index: 3, commit_term: 2 },
        })
        .unwrap();
    assert_is_follower(&node);
    assert_term(&node, 4);
    assert_leader(&node, Some("c"));
    assert_voted_for(&node, None);
    assert_messages(
        &mut node,
        vec![Message {
            from: Some("a".into()),
            to: Some("c".into()),
            term: 4,
            event: Event::ConfirmLeader { commit_index: 3, has_committed: true },
        }],
    );
}

#[test]
// Heartbeat from past term
fn step_heartbeat_past_term() {
    let follower = setup();
    let mut node = follower
        .step(Message {
            from: Some("b".into()),
            to: Some("a".into()),
            term: 2,
            event: Event::Heartbeat { commit_index: 3, commit_term: 2 },
        })
        .unwrap();
    assert_is_follower(&node);
    assert_term(&node, 3);
    assert_leader(&node, Some("b"));
    assert_voted_for(&node, None);
    assert_committed(&node, 2);
    assert_applied(&node, 1);
    assert_messages(&mut node, vec![]);
}

#[test]
// SolicitVote is granted for the first solicitor, otherwise ignored.
fn step_solicitvote() {
    let follower = setup();

    // The first vote request in this term yields a vote response.
    let mut node = follower
        .step(Message {
            from: Some("c".into()),
            to: Some("a".into()),
            term: 3,
            event: Event::SolicitVote { last_index: 3, last_term: 2 },
        })
        .unwrap();
    assert_is_follower(&node);
    assert_term(&node, 3);
    assert_leader(&node, Some("b"));
    assert_voted_for(&node, Some("c"));
    assert_messages(
        &mut node,
        vec![Message {
            from: Some("a".into()),
            to: Some("c".into()),
            term: 3,
            event: Event::GrantVote,
        }],
    );

    // Another vote request from the same sender is granted.
    let mut node = node
        .step(Message {
            from: Some("c".into()),
            to: Some("a".into()),
            term: 3,
            event: Event::SolicitVote { last_index: 3, last_term: 2 },
        })
        .unwrap();
    assert_is_follower(&node);
    assert_term(&node, 3);
    assert_leader(&node, Some("b"));
    assert_voted_for(&node, Some("c"));
    assert_messages(
        &mut node,
        vec![Message {
            from: Some("a".into()),
            to: Some("c".into()),
            term: 3,
            event: Event::GrantVote,
        }],
    );

    // But a vote request from a different node is ignored.
    let mut node = node
        .step(Message {
            from: Some("d".into()),
            to: Some("a".into()),
            term: 3,
            event: Event::SolicitVote { last_index: 3, last_term: 2 },
        })
        .unwrap();
    assert_is_follower(&node);
    assert_term(&node, 3);
    assert_leader(&node, Some("b"));
    assert_voted_for(&node, Some("c"));
    assert_messages(&mut node, vec![]);
}

#[test]
// GrantVote messages are ignored
fn step_grantvote_noop() {
    let follower = setup();
    let mut node = follower
        .step(Message {
            from: Some("b".into()),
            to: Some("a".into()),
            term: 3,
            event: Event::GrantVote,
        })
        .unwrap();
    assert_is_follower(&node);
    assert_term(&node, 3);
    assert_leader(&node, Some("b"));
    assert_messages(&mut node, vec![]);
}

#[test]
// SolicitVote is rejected if last_index is outdated.
fn step_solicitvote_last_index_outdated() {
    let follower = setup();
    let mut node = follower
        .step(Message {
            from: Some("c".into()),
            to: Some("a".into()),
            term: 3,
            event: Event::SolicitVote { last_index: 2, last_term: 2 },
        })
        .unwrap();
    assert_is_follower(&node);
    assert_term(&node, 3);
    assert_leader(&node, Some("b"));
    assert_voted_for(&node, None);
    assert_messages(&mut node, vec![]);
}

#[test]
// SolicitVote is rejected if last_term is outdated.
fn step_solicitvote_last_term_outdated() {
    let follower = setup();
    let mut node = follower
        .step(Message {
            from: Some("c".into()),
            to: Some("a".into()),
            term: 3,
            event: Event::SolicitVote { last_index: 3, last_term: 1 },
        })
        .unwrap();
    assert_is_follower(&node);
    assert_term(&node, 3);
    assert_leader(&node, Some("b"));
    assert_voted_for(&node, None);
    assert_messages(&mut node, vec![]);
}

#[test]
// ReplicateEntries accepts some entries at base 0 without changes
fn step_replicateentries_base0() {
    let follower = setup();
    let mut node = follower
        .step(Message {
            from: Some("b".into()),
            to: Some("a".into()),
            term: 3,
            event: Event::ReplicateEntries {
                base_index: 0,
                base_term: 0,
                entries: vec![
                    Entry { term: 1, command: Some(vec![0x01]) },
                    Entry { term: 1, command: Some(vec![0x02]) },
                ],
            },
        })
        .unwrap();
    assert_is_follower(&node);
    assert_term(&node, 3);
    assert_entries(
        &node,
        vec![
            Entry { term: 1, command: Some(vec![0x01]) },
            Entry { term: 1, command: Some(vec![0x02]) },
            Entry { term: 2, command: Some(vec![0x03]) },
        ],
    );
    assert_messages(
        &mut node,
        vec![Message {
            from: Some("a".into()),
            to: Some("b".into()),
            term: 3,
            event: Event::AcceptEntries { last_index: 3 },
        }],
    );
}

#[test]
// ReplicateEntries appends entries
fn step_replicateentries_append() {
    let follower = setup();
    let mut node = follower
        .step(Message {
            from: Some("b".into()),
            to: Some("a".into()),
            term: 3,
            event: Event::ReplicateEntries {
                base_index: 3,
                base_term: 2,
                entries: vec![
                    Entry { term: 3, command: Some(vec![0x04]) },
                    Entry { term: 3, command: Some(vec![0x05]) },
                ],
            },
        })
        .unwrap();
    assert_is_follower(&node);
    assert_term(&node, 3);
    assert_entries(
        &node,
        vec![
            Entry { term: 1, command: Some(vec![0x01]) },
            Entry { term: 1, command: Some(vec![0x02]) },
            Entry { term: 2, command: Some(vec![0x03]) },
            Entry { term: 3, command: Some(vec![0x04]) },
            Entry { term: 3, command: Some(vec![0x05]) },
        ],
    );
    assert_messages(
        &mut node,
        vec![Message {
            from: Some("a".into()),
            to: Some("b".into()),
            term: 3,
            event: Event::AcceptEntries { last_index: 5 },
        }],
    );
}

#[test]
// ReplicateEntries accepts partially overlapping entries
fn step_replicateentries_partial_overlap() {
    let follower = setup();
    let mut node = follower
        .step(Message {
            from: Some("b".into()),
            to: Some("a".into()),
            term: 3,
            event: Event::ReplicateEntries {
                base_index: 1,
                base_term: 1,
                entries: vec![
                    Entry { term: 1, command: Some(vec![0x02]) },
                    Entry { term: 2, command: Some(vec![0x03]) },
                    Entry { term: 3, command: Some(vec![0x04]) },
                ],
            },
        })
        .unwrap();
    assert_is_follower(&node);
    assert_term(&node, 3);
    assert_entries(
        &node,
        vec![
            Entry { term: 1, command: Some(vec![0x01]) },
            Entry { term: 1, command: Some(vec![0x02]) },
            Entry { term: 2, command: Some(vec![0x03]) },
            Entry { term: 3, command: Some(vec![0x04]) },
        ],
    );
    assert_messages(
        &mut node,
        vec![Message {
            from: Some("a".into()),
            to: Some("b".into()),
            term: 3,
            event: Event::AcceptEntries { last_index: 4 },
        }],
    );
}

#[test]
// ReplicateEntries replaces conflicting entries
fn step_replicateentries_replace() {
    let follower = setup();
    let mut node = follower
        .step(Message {
            from: Some("b".into()),
            to: Some("a".into()),
            term: 3,
            event: Event::ReplicateEntries {
                base_index: 2,
                base_term: 1,
                entries: vec![
                    Entry { term: 3, command: Some(vec![0x04]) },
                    Entry { term: 3, command: Some(vec![0x05]) },
                ],
            },
        })
        .unwrap();
    assert_is_follower(&node);
    assert_term(&node, 3);
    assert_entries(
        &node,
        vec![
            Entry { term: 1, command: Some(vec![0x01]) },
            Entry { term: 1, command: Some(vec![0x02]) },
            Entry { term: 3, command: Some(vec![0x04]) },
            Entry { term: 3, command: Some(vec![0x05]) },
        ],
    );
    assert_messages(
        &mut node,
        vec![Message {
            from: Some("a".into()),
            to: Some("b".into()),
            term: 3,
            event: Event::AcceptEntries { last_index: 4 },
        }],
    );
}

#[test]
// ReplicateEntries replaces partially conflicting entries
fn step_replicateentries_replace_partial() {
    let follower = setup();
    let mut node = follower
        .step(Message {
            from: Some("b".into()),
            to: Some("a".into()),
            term: 3,
            event: Event::ReplicateEntries {
                base_index: 2,
                base_term: 1,
                entries: vec![
                    Entry { term: 2, command: Some(vec![0x03]) },
                    Entry { term: 3, command: Some(vec![0x04]) },
                ],
            },
        })
        .unwrap();
    assert_is_follower(&node);
    assert_term(&node, 3);
    assert_entries(
        &node,
        vec![
            Entry { term: 1, command: Some(vec![0x01]) },
            Entry { term: 1, command: Some(vec![0x02]) },
            Entry { term: 2, command: Some(vec![0x03]) },
            Entry { term: 3, command: Some(vec![0x04]) },
        ],
    );
    assert_messages(
        &mut node,
        vec![Message {
            from: Some("a".into()),
            to: Some("b".into()),
            term: 3,
            event: Event::AcceptEntries { last_index: 4 },
        }],
    );
}

#[test]
// ReplicateEntries rejects missing base index
fn step_replicateentries_reject_missing_base_index() {
    let follower = setup();
    let mut node = follower
        .step(Message {
            from: Some("b".into()),
            to: Some("a".into()),
            term: 3,
            event: Event::ReplicateEntries {
                base_index: 5,
                base_term: 2,
                entries: vec![Entry { term: 3, command: Some(vec![0x04]) }],
            },
        })
        .unwrap();
    assert_is_follower(&node);
    assert_term(&node, 3);
    assert_entries(
        &node,
        vec![
            Entry { term: 1, command: Some(vec![0x01]) },
            Entry { term: 1, command: Some(vec![0x02]) },
            Entry { term: 2, command: Some(vec![0x03]) },
        ],
    );
    assert_messages(
        &mut node,
        vec![Message {
            from: Some("a".into()),
            to: Some("b".into()),
            term: 3,
            event: Event::RejectEntries,
        }],
    );
}

#[test]
// ReplicateEntries rejects conflicting base term
fn step_replicateentries_reject_missing_base_term() {
    let follower = setup();
    let mut node = follower
        .step(Message {
            from: Some("b".into()),
            to: Some("a".into()),
            term: 3,
            event: Event::ReplicateEntries {
                base_index: 1,
                base_term: 2,
                entries: vec![Entry { term: 3, command: Some(vec![0x04]) }],
            },
        })
        .unwrap();
    assert_is_follower(&node);
    assert_term(&node, 3);
    assert_entries(
        &node,
        vec![
            Entry { term: 1, command: Some(vec![0x01]) },
            Entry { term: 1, command: Some(vec![0x02]) },
            Entry { term: 2, command: Some(vec![0x03]) },
        ],
    );
    assert_messages(
        &mut node,
        vec![Message {
            from: Some("a".into()),
            to: Some("b".into()),
            term: 3,
            event: Event::RejectEntries,
        }],
    );
}

#[test]
// ReadState and MutateState are proxied, as are the responses
fn step_readstate_mutatestate_respond() {
    let calls = vec![
        Event::MutateState { call_id: vec![0x02], command: vec![0x02] },
        Event::ReadState { call_id: vec![0x01], command: vec![0x01] },
    ];
    let responses = vec![
        Event::RespondError { call_id: vec![], error: "b00m".into() },
        Event::RespondState { call_id: vec![], response: vec![0xaf] },
    ];
    let mut node = setup();
    for call in calls.into_iter() {
        for mut response in responses.clone().into_iter() {
            node = node
                .step(Message { from: None, to: None, term: 0, event: call.clone() })
                .unwrap();
            assert_is_follower(&node);
            assert_term(&node, 3);
            assert_leader(&node, Some("b"));
            assert_messages(
                &mut node,
                vec![Message {
                    from: Some("a".into()),
                    to: Some("b".into()),
                    term: 3,
                    event: call.clone(),
                }],
            );
            match response {
                Event::RespondError { ref mut call_id, .. }
                | Event::RespondState { ref mut call_id, .. } => {
                    *call_id = call.call_id().unwrap()
                },
                _ => {},
            }
            // Multiple responses should only be proxied once.
            for _ in 0..3 {
                node = node
                    .step(Message {
                        from: Some("b".into()),
                        to: Some("a".into()),
                        term: 3,
                        event: response.clone(),
                    })
                    .unwrap();
            }
            assert_messages(
                &mut node,
                vec![Message {
                    from: Some("a".into()),
                    to: None,
                    term: 3,
                    event: response,
                }],
            );
        }
    }
}

#[test]
fn tick() {
    let mut node = setup();
    let timeout = node.election_timeout().unwrap();
    let peers = vec!["b", "c", "d", "e"];

    // Make sure heartbeats reset the election timeout.
    assert!(timeout > 0);
    for i in 0..(3 * timeout) {
        let applied = if i > 0 { 2 } else { 1 };
        assert_is_follower(&node);
        assert_term(&node, 3);
        assert_leader(&node, Some("b"));
        assert_applied(&node, applied);
        node = node.tick().unwrap();
        node = node
            .step(Message {
                from: Some("b".into()),
                to: Some("a".into()),
                term: 3,
                event: Event::Heartbeat { commit_index: 2, commit_term: 1 },
            })
            .unwrap();
        assert_messages(
            &mut node,
            vec![Message {
                from: Some("a".into()),
                to: Some("b".into()),
                term: 3,
                event: Event::ConfirmLeader { commit_index: 2, has_committed: true },
            }],
        )
    }

    for _ in 0..timeout {
        assert_is_follower(&node);
        assert_term(&node, 3);
        assert_leader(&node, Some("b"));
        node = node.tick().unwrap();
    }
    assert!(matches!(node, Node::Candidate(_)));
    assert_eq!(node.term(), 4);

    let outbox = node.take_outbox();
    assert_eq!(
        outbox,
        peers
            .into_iter()
            .map(|to| Message {
                from: Some("a".into()),
                to: Some(to.into()),
                term: 4,
                event: Event::SolicitVote { last_index: 3, last_term: 2 },
            })
            .collect::<Vec<_>>()
    );
}

#[test]
fn mod_new() {
    let node: TestNode = Node::new(
        "a",
        vec!["b".into(), "c".into()],
        KVMemory::new(),
        TestState::new(),
    )
    .unwrap();
    assert!(matches!(node, Node::Follower(_)));
    assert_eq!(node.id(), "a".to_owned());
    assert_eq!(node.term(), 0);
    assert_eq!(node.peers(), vec!["b".to_owned(), "c".to_owned()]);
    assert_eq!(node.leader(), None);
}

#[test]
fn new_loads_term() {
    let mut log = Log::new(KVMemory::new()).unwrap();
    log.save_term(3, Some("c")).unwrap();
    let node: TestNode = Node::new(
        "a",
        vec!["b".into(), "c".into()],
        log.into_store(),
        TestState::new(),
    )
    .unwrap();
    assert!(matches!(node, Node::Follower(_)));
    assert_eq!(node.term(), 3);
}

#[test]
fn new_single() {
    let node: TestNode = Node::new("a", vec![], KVMemory::new(), TestState::new()).unwrap();
    assert!(matches!(node, Node::Leader(_)));
    // A bootstrapping single-node cluster starts its first leadership epoch
    // at term 1, so that its entries carry a real term.
    assert_eq!(node.term(), 1);
}
