//! Tests for the replicated log: appending, committing, applying, splicing,
//! truncating and recovering from the backing store.

use mynode::raft::log::{Entry, Log};
use mynode::raft::state::State;
use mynode::store::KVMemory;
use mynode::Error;

/// A state machine that records every mutation it was given. Mutations must
/// be a single byte; the output is the byte prefixed with 0xff.
struct TestState {
    commands: Vec<Vec<u8>>,
}

impl TestState {
    fn new() -> Self {
        TestState { commands: Vec::new() }
    }

    fn list(&self) -> Vec<Vec<u8>> {
        self.commands.clone()
    }
}

impl State for TestState {
    fn mutate(&mut self, command: Vec<u8>) -> Result<Vec<u8>, Error> {
        if command.len() != 1 {
            return Err(Error::Value("Mutation payload must be 1 byte".into()));
        }
        self.commands.push(command.clone());
        Ok(vec![0xff, command[0]])
    }

    fn read(&self, command: Vec<u8>) -> Result<Vec<u8>, Error> {
        if command.len() != 1 {
            return Err(Error::Value("Read payload must be 1 byte".into()));
        }
        let index = command[0] as usize;
        Ok(vec![
            0xbb,
            self.commands.get(index - 1).map(|c| c[0]).unwrap_or(0x00),
        ])
    }
}

fn setup() -> Log<KVMemory> {
    Log::new(KVMemory::new()).unwrap()
}

fn setup_appends(l: &mut Log<KVMemory>) {
    l.append(Entry {
        term: 1,
        command: Some(vec![0x01]),
    })
    .unwrap();
    l.append(Entry {
        term: 2,
        command: None,
    })
    .unwrap();
    l.append(Entry {
        term: 2,
        command: Some(vec![0x03]),
    })
    .unwrap();
}

#[test]
fn log_new() {
    let l = setup();
    assert_eq!((0, 0), l.get_last());
    assert_eq!((0, 0), l.get_committed());
    assert_eq!((0, 0), l.get_applied());
    assert_eq!(None, l.get(1).unwrap());
}

#[test]
fn append() {
    let mut l = setup();
    assert_eq!(Ok(None), l.get(1));
    assert_eq!(Ok(None), l.get(9));

    assert_eq!(
        Ok(1),
        l.append(Entry {
            term: 7,
            command: Some(vec![0x01]),
        })
    );
    assert_eq!(
        Ok(2),
        l.append(Entry {
            term: 9,
            command: Some(vec![0x02]),
        })
    );

    let entry3 = Entry {
        term: 10,
        command: Some(vec![0x03]),
    };
    let entry3_again = Entry {
        term: 10,
        command: Some(vec![0x03]),
    };
    assert_eq!(Ok(3), l.append(entry3));
    assert_eq!((3, 10), l.get_last());
    assert_eq!((0, 0), l.get_committed());
    assert_eq!((0, 0), l.get_applied());
    assert_eq!(Ok(Some(entry3_again)), l.get(3));
}

#[test]
fn append_none_command() {
    let mut l = setup();
    assert_eq!(
        Ok(1),
        l.append(Entry {
            term: 3,
            command: None
        })
    );
    assert_eq!(
        Ok(Some(Entry {
            term: 3,
            command: None
        })),
        l.get(1)
    );
}

#[test]
fn append_persistence() {
    let mut l = setup();
    setup_appends(&mut l);
    assert_eq!((0, 0), l.get_applied());

    assert_eq!((0, 0), l.get_committed());
    assert_eq!((3, 2), l.get_last());

    let l = Log::new(l.into_store()).unwrap();
    assert_eq!(
        Ok(Some(Entry {
            term: 1,
            command: Some(vec![0x01])
        })),
        l.get(1)
    );
    assert_eq!(
        Ok(Some(Entry {
            term: 2,
            command: None
        })),
        l.get(2)
    );
    assert_eq!(
        Ok(Some(Entry {
            term: 2,
            command: Some(vec![0x03])
        })),
        l.get(3)
    );
    assert_eq!((0, 0), l.get_applied());
    assert_eq!((0, 0), l.get_committed());
    assert_eq!((3, 2), l.get_last());
}

#[test]
fn get() {
    let mut l = setup();
    assert_eq!(Ok(None), l.get(1));

    l.append(Entry {
        term: 3,
        command: Some(vec![0x01]),
    })
    .unwrap();
    assert_eq!(
        Ok(Some(Entry {
            term: 3,
            command: Some(vec![0x01])
        })),
        l.get(1)
    );
    assert_eq!(Ok(None), l.get(2));
}

#[test]
fn commit() {
    let mut l = setup();
    setup_appends(&mut l);
    assert_eq!(Ok(3), l.commit(3));
    assert_eq!((3, 2), l.get_committed());
}

#[test]
fn commit_beyond() {
    let mut l = setup();
    setup_appends(&mut l);
    assert_eq!(Ok(3), l.commit(999));
    assert_eq!((3, 2), l.get_committed());
}

#[test]
fn commit_partial() {
    let mut l = setup();
    setup_appends(&mut l);
    assert_eq!(Ok(2), l.commit(2));
    assert_eq!((2, 2), l.get_committed());
}

#[test]
fn commit_reduce() {
    let mut l = setup();
    setup_appends(&mut l);
    assert_eq!(Ok(1), l.commit(1));
    assert_eq!((1, 1), l.get_committed());

    assert_eq!(Ok(2), l.commit(2));
    assert_eq!((2, 2), l.get_committed());

    assert_eq!(Ok(3), l.commit(3));
    assert_eq!((3, 2), l.get_committed());

    assert_eq!(Ok(3), l.commit(2));
    assert_eq!((3, 2), l.get_committed());
}

#[test]
fn commit_zero() {
    let mut l = setup();
    assert_eq!(Ok(0), l.commit(0));
    assert_eq!((0, 0), l.get_committed());

    assert_eq!(Ok(0), l.commit(5));
    assert_eq!((0, 0), l.get_committed());
}

#[test]
fn apply() {
    let mut l = setup();
    setup_appends(&mut l);
    l.commit(3).unwrap();

    let mut state = TestState::new();
    assert_eq!(Ok(Some((1, vec![0xff, 0x01]))), l.apply(&mut state));
    assert_eq!((1, 1), l.get_applied());
    assert_eq!(vec![vec![0x01]], state.list());

    assert_eq!(Ok(Some((2, vec![]))), l.apply(&mut state));
    assert_eq!((2, 2), l.get_applied());
    assert_eq!(vec![vec![0x01]], state.list());

    assert_eq!(Ok(Some((3, vec![0xff, 0x03]))), l.apply(&mut state));
    assert_eq!((3, 2), l.get_applied());
    assert_eq!(vec![vec![0x01], vec![0x03]], state.list());

    // The last applied entry should be persisted, and also used for last committed
    let l = Log::new(l.into_store()).unwrap();
    assert_eq!((3, 2), l.get_last());
    assert_eq!((3, 2), l.get_committed());
    assert_eq!((3, 2), l.get_applied());
}

#[test]
fn apply_committed_only() {
    let mut l = setup();
    setup_appends(&mut l);
    l.commit(2).unwrap();

    let mut state = TestState::new();
    l.apply(&mut state).unwrap();
    assert_eq!(vec![vec![0x01],], state.list());

    l.apply(&mut state).unwrap();
    assert_eq!(vec![vec![0x01],], state.list());

    assert_eq!(Ok(None), l.apply(&mut state));
    assert_eq!(vec![vec![0x01],], state.list());

    // The last commit entry won't be persisted
    let l = Log::new(l.into_store()).unwrap();
    assert_eq!((3, 2), l.get_last());
    assert_eq!((2, 2), l.get_committed());
    assert_eq!((2, 2), l.get_applied());
    assert_eq!(vec![vec![0x01],], state.list());
}

#[test]
fn apply_partial_commit_and_recover() {
    let mut l = setup();
    setup_appends(&mut l);
    l.commit(3).unwrap();

    let mut state = TestState::new();
    l.apply(&mut state).unwrap();
    l.apply(&mut state).unwrap();
    assert_eq!(vec![vec![0x01],], state.list());

    // The last commit entry won't be persisted
    let mut l = Log::new(l.into_store()).unwrap();
    assert_eq!((3, 2), l.get_last());
    assert_eq!((2, 2), l.get_committed());
    assert_eq!((2, 2), l.get_applied());

    // after recovering, finalizes the commits
    l.commit(3).unwrap();
    l.apply(&mut state).unwrap();
    assert_eq!((3, 2), l.get_last());
    assert_eq!((3, 2), l.get_committed());
    assert_eq!((3, 2), l.get_applied());
    assert_eq!(vec![vec![0x01], vec![0x03]], state.list());
}

#[test]
fn has() {
    let mut l = setup();
    l.append(Entry {
        term: 2,
        command: Some(vec![0x01]),
    })
    .unwrap();

    assert_eq!(true, l.has(1, 2).unwrap());
    assert_eq!(true, l.has(0, 0).unwrap());
    assert_eq!(false, l.has(0, 1).unwrap());
    assert_eq!(false, l.has(1, 0).unwrap());
    assert_eq!(false, l.has(1, 3).unwrap());
    assert_eq!(false, l.has(2, 0).unwrap());
    assert_eq!(false, l.has(2, 1).unwrap());
}

#[test]
fn load_save_term() {
    let mut l = setup();
    assert_eq!(Ok((0, None)), l.load_term());
    assert_eq!(Ok(()), l.save_term(1, Some("a")));

    let mut l = Log::new(l.into_store()).unwrap();
    assert_eq!(Ok((1, Some("a".into()))), l.load_term());
    assert_eq!(Ok(()), l.save_term(3, Some("c")));

    let mut l = Log::new(l.into_store()).unwrap();
    assert_eq!(Ok((3, Some("c".into()))), l.load_term());
    assert_eq!(Ok(()), l.save_term(0, None));

    let l = Log::new(l.into_store()).unwrap();
    assert_eq!(Ok((0, None)), l.load_term());
}

#[test]
fn splice() {
    let mut l = setup();
    l.append(Entry {
        term: 1,
        command: Some(vec![0x01]),
    })
    .unwrap();
    l.append(Entry {
        term: 2,
        command: Some(vec![0x02]),
    })
    .unwrap();
    l.append(Entry {
        term: 3,
        command: Some(vec![0x03]),
    })
    .unwrap();

    assert_eq!(
        Ok(4),
        l.splice(
            2,
            2,
            vec![
                Entry {
                    term: 3,
                    command: Some(vec![0x03])
                },
                Entry {
                    term: 4,
                    command: Some(vec![0x04])
                },
            ]
        )
    );
    assert_eq!(
        Ok(Some(Entry {
            term: 1,
            command: Some(vec![0x01])
        })),
        l.get(1)
    );
    assert_eq!(
        Ok(Some(Entry {
            term: 2,
            command: Some(vec![0x02])
        })),
        l.get(2)
    );
    assert_eq!(
        Ok(Some(Entry {
            term: 3,
            command: Some(vec![0x03])
        })),
        l.get(3)
    );
    assert_eq!(
        Ok(Some(Entry {
            term: 4,
            command: Some(vec![0x04])
        })),
        l.get(4)
    );
    assert_eq!((4, 4), l.get_last());
}

#[test]
fn splice_all() {
    let mut l = setup();
    l.append(Entry {
        term: 1,
        command: Some(vec![0x01]),
    })
    .unwrap();
    l.append(Entry {
        term: 2,
        command: Some(vec![0x02]),
    })
    .unwrap();
    l.append(Entry {
        term: 3,
        command: Some(vec![0x03]),
    })
    .unwrap();

    assert_eq!(
        Ok(2),
        l.splice(
            0,
            0,
            vec![
                Entry {
                    term: 4,
                    command: Some(vec![0x0a])
                },
                Entry {
                    term: 4,
                    command: Some(vec![0x0b])
                },
            ]
        )
    );
    assert_eq!(
        Ok(Some(Entry {
            term: 4,
            command: Some(vec![0x0a])
        })),
        l.get(1)
    );
    assert_eq!(
        Ok(Some(Entry {
            term: 4,
            command: Some(vec![0x0b])
        })),
        l.get(2)
    );
    assert_eq!((2, 4), l.get_last());
}

#[test]
fn splice_append() {
    let mut l = setup();
    l.append(Entry {
        term: 1,
        command: Some(vec![0x01]),
    })
    .unwrap();
    l.append(Entry {
        term: 2,
        command: Some(vec![0x02]),
    })
    .unwrap();

    assert_eq!(
        Ok(4),
        l.splice(
            2,
            2,
            vec![
                Entry {
                    term: 3,
                    command: Some(vec![0x03])
                },
                Entry {
                    term: 4,
                    command: Some(vec![0x04])
                },
            ]
        )
    );
    assert_eq!(
        Ok(Some(Entry {
            term: 1,
            command: Some(vec![0x01])
        })),
        l.get(1)
    );
    assert_eq!(
        Ok(Some(Entry {
            term: 2,
            command: Some(vec![0x02])
        })),
        l.get(2)
    );
    assert_eq!(
        Ok(Some(Entry {
            term: 3,
            command: Some(vec![0x03])
        })),
        l.get(3)
    );
    assert_eq!(
        Ok(Some(Entry {
            term: 4,
            command: Some(vec![0x04])
        })),
        l.get(4)
    );
    assert_eq!((4, 4), l.get_last());
}

#[test]
fn splice_base_missing() {
    let mut l = setup();
    l.append(Entry {
        term: 1,
        command: Some(vec![0x01]),
    })
    .unwrap();
    l.append(Entry {
        term: 2,
        command: Some(vec![0x02]),
    })
    .unwrap();

    assert_eq!(
        l.splice(
            3,
            3,
            vec![Entry {
                term: 4,
                command: Some(vec![0x04])
            },]
        ),
        Err(Error::RaftBaseNotFound { index: 3, term: 3 })
    );
    assert_eq!(
        Ok(Some(Entry {
            term: 1,
            command: Some(vec![0x01])
        })),
        l.get(1)
    );
    assert_eq!(
        Ok(Some(Entry {
            term: 2,
            command: Some(vec![0x02])
        })),
        l.get(2)
    );
    assert_eq!((2, 2), l.get_last());
}

#[test]
fn splice_base_term_conflict() {
    let mut l = setup();
    l.append(Entry {
        term: 1,
        command: Some(vec![0x01]),
    })
    .unwrap();
    l.append(Entry {
        term: 2,
        command: Some(vec![0x02]),
    })
    .unwrap();

    assert!(matches!(
        l.splice(2, 3, vec![Entry { term: 4, command: Some(vec![0x04]) },]),
        Err(Error::RaftBaseNotFound { index, term }) if index == 2 && term == 3
    ));
    assert!(matches!(
        l.splice(2, 0, vec![Entry { term: 4, command: Some(vec![0x04]) },]),
        Err(Error::RaftBaseNotFound { index, term }) if index == 2 && term == 0
    ));
    assert_eq!(
        Ok(Some(Entry {
            term: 1,
            command: Some(vec![0x01])
        })),
        l.get(1)
    );
    assert_eq!(
        Ok(Some(Entry {
            term: 2,
            command: Some(vec![0x02])
        })),
        l.get(2)
    );
    assert_eq!((2, 2), l.get_last());
}

#[test]
fn splice_overlap_inside() {
    let mut l = setup();
    l.append(Entry {
        term: 1,
        command: Some(vec![0x01]),
    })
    .unwrap();
    l.append(Entry {
        term: 2,
        command: Some(vec![0x02]),
    })
    .unwrap();
    l.append(Entry {
        term: 3,
        command: Some(vec![0x03]),
    })
    .unwrap();

    assert_eq!(
        Ok(3),
        l.splice(
            1,
            1,
            vec![Entry {
                term: 2,
                command: Some(vec![0x04])
            },]
        )
    );
    assert_eq!(
        Ok(Some(Entry {
            term: 1,
            command: Some(vec![0x01])
        })),
        l.get(1)
    );
    assert_eq!(
        Ok(Some(Entry {
            term: 2,
            command: Some(vec![0x02])
        })),
        l.get(2)
    );
    assert_eq!(
        Ok(Some(Entry {
            term: 3,
            command: Some(vec![0x03])
        })),
        l.get(3)
    );
    assert_eq!((3, 3), l.get_last());
}

#[test]
fn range_from() {
    let mut l = setup();
    l.append(Entry {
        term: 1,
        command: Some(vec![0x01]),
    })
    .unwrap();
    l.append(Entry {
        term: 1,
        command: Some(vec![0x02]),
    })
    .unwrap();
    l.append(Entry {
        term: 1,
        command: Some(vec![0x03]),
    })
    .unwrap();

    assert_eq!(
        Ok(vec![
            Entry {
                term: 1,
                command: Some(vec![0x01])
            },
            Entry {
                term: 1,
                command: Some(vec![0x02])
            },
            Entry {
                term: 1,
                command: Some(vec![0x03])
            },
        ]),
        l.range(0)
    );

    assert_eq!(
        Ok(vec![
            Entry {
                term: 1,
                command: Some(vec![0x02])
            },
            Entry {
                term: 1,
                command: Some(vec![0x03])
            },
        ]),
        l.range(2)
    );

    assert_eq!(Ok(vec![]), l.range(4));
}

#[test]
fn truncate() {
    let mut l = setup();
    setup_appends(&mut l);

    assert_eq!(Ok(2), l.truncate(2));
    assert_eq!(
        Ok(Some(Entry {
            term: 1,
            command: Some(vec![0x01])
        })),
        l.get(1)
    );
    assert_eq!(
        Ok(Some(Entry {
            term: 2,
            command: None
        })),
        l.get(2)
    );
    assert_eq!(Ok(None), l.get(3));
    assert_eq!((2, 2), l.get_last());
}

#[test]
fn truncate_beyond() {
    let mut l = setup();
    setup_appends(&mut l);

    assert_eq!(Ok(3), l.truncate(4));
    assert_eq!(
        Ok(Some(Entry {
            term: 1,
            command: Some(vec![0x01])
        })),
        l.get(1)
    );
    assert_eq!(
        Ok(Some(Entry {
            term: 2,
            command: None,
        })),
        l.get(2)
    );
    assert_eq!(
        Ok(Some(Entry {
            term: 2,
            command: Some(vec![0x03])
        })),
        l.get(3)
    );
    assert_eq!(Ok(None), l.get(4));
    assert_eq!((3, 2), l.get_last());
}

#[test]
fn truncate_committed() {
    let mut l = setup();
    setup_appends(&mut l);
    l.commit(2).unwrap();

    assert!(matches!(l.truncate(1), Err(Error::Value(_))));
    assert_eq!(l.truncate(2), Ok(2));
}

#[test]
fn truncate_zero() {
    let mut l = setup();
    setup_appends(&mut l);

    assert_eq!(Ok(0), l.truncate(0));
    assert_eq!(Ok(None), l.get(1));
    assert_eq!(Ok(None), l.get(2));
    assert_eq!(Ok(None), l.get(3));
    assert_eq!((0, 0), l.get_last());
}

#[test]
fn splice_replace_conflicting_tail() {
    // A splice whose base matches but whose entries disagree replaces the
    // conflicting stored tail.
    let mut l = setup();
    l.append(Entry { term: 1, command: Some(vec![0x01]) }).unwrap();
    l.append(Entry { term: 1, command: Some(vec![0x02]) }).unwrap();
    l.append(Entry { term: 2, command: Some(vec![0x03]) }).unwrap();

    assert_eq!(
        Ok(4),
        l.splice(
            2,
            1,
            vec![
                Entry { term: 3, command: Some(vec![0x04]) },
                Entry { term: 3, command: Some(vec![0x05]) },
            ]
        )
    );
    assert_eq!(
        Ok(Some(Entry { term: 3, command: Some(vec![0x04]) })),
        l.get(3)
    );
    assert_eq!(
        Ok(Some(Entry { term: 3, command: Some(vec![0x05]) })),
        l.get(4)
    );
    assert_eq!((4, 3), l.get_last());
}

#[test]
fn splice_twice_is_idempotent() {
    // Splicing the same entries onto the same base twice leaves the log as
    // the first splice did.
    let mut l = setup();
    l.append(Entry { term: 1, command: Some(vec![0x01]) }).unwrap();
    let entries = |l: &Log<KVMemory>| l.range(0).unwrap();

    assert_eq!(
        Ok(3),
        l.splice(
            1,
            1,
            vec![
                Entry { term: 2, command: Some(vec![0x02]) },
                Entry { term: 2, command: Some(vec![0x03]) },
            ]
        )
    );
    let after_first = entries(&l);
    assert_eq!(
        Ok(3),
        l.splice(
            1,
            1,
            vec![
                Entry { term: 2, command: Some(vec![0x02]) },
                Entry { term: 2, command: Some(vec![0x03]) },
            ]
        )
    );
    assert_eq!(after_first, entries(&l));
}
