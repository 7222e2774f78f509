//! Tests for the message model: normalization and validation.

use mynode::raft::transport::{Event, Message};

#[test]
fn normalize() {
    let mut msg = Message {
        from: None,
        to: None,
        term: 0,
        event: Event::Heartbeat {
            commit_index: 1,
            commit_term: 1,
        },
    };

    msg.normalize("alice", 3);

    assert_eq!(
        msg,
        Message {
            from: None,
            to: Some("alice".into()),
            term: 3,
            event: Event::Heartbeat {
                commit_index: 1,
                commit_term: 1,
            }
        }
    )
}

#[test]
fn normalize_peer() {
    let mut msg = Message {
        from: Some("bob".into()),
        to: Some("alice".into()),
        term: 3,
        event: Event::Heartbeat {
            commit_index: 1,
            commit_term: 1,
        },
    };

    msg.normalize("charlie", 9);

    assert_eq!(
        msg,
        Message {
            from: Some("bob".into()),
            to: Some("charlie".into()),
            term: 3,
            event: Event::Heartbeat {
                commit_index: 1,
                commit_term: 1,
            }
        }
    )
}

#[test]
fn validate() {
    let event = Event::Heartbeat {
        commit_index: 1,
        commit_term: 1,
    };

    // Errors on stale term
    assert!(Message {
        from: Some("bob".into()),
        to: Some("alice".into()),
        term: 2,
        event: Event::Heartbeat {
            commit_index: 1,
            commit_term: 1,
        },
    }
    .validate("alice", 3)
    .is_err());

    // Errors on no receiver
    assert!(Message {
        from: Some("bob".into()),
        to: None,
        term: 3,
        event: Event::Heartbeat {
            commit_index: 1,
            commit_term: 1,
        },
    }
    .validate("alice", 3)
    .is_err());

    // Errors on other receiver
    assert!(Message {
        from: Some("bob".into()),
        to: Some("charlie".into()),
        term: 3,
        event,
    }
    .validate("alice", 3)
    .is_err());

    // Errors on a local event without a call ID
    assert!(Message {
        from: None,
        to: Some("alice".into()),
        term: 3,
        event: Event::GrantVote,
    }
    .validate("alice", 3)
    .is_err());

    // Accepts a proper peer message
    assert!(Message {
        from: Some("bob".into()),
        to: Some("alice".into()),
        term: 3,
        event: Event::GrantVote,
    }
    .validate("alice", 3)
    .is_ok());
}
