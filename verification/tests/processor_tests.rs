use voting::{
    decode_poll, encode_instruction, encode_poll, get_current_time, process_close_poll,
    process_create_poll, process_instruction, process_vote, Account, Poll, VoteError,
    VotingInstruction,
};

fn dummy_pubkey(seed: u8) -> Vec<u8> {
    let mut bytes = vec![0u8; 32];
    bytes[0] = seed;
    bytes
}

fn account(key: &[u8], is_signer: bool, data: Vec<u8>) -> Account {
    Account { key: key.to_vec(), is_signer, data }
}

/// A poll record placed at the front of a host buffer of the given size.
fn buffer_with(poll: &Poll, size: usize) -> Vec<u8> {
    let mut data = encode_poll(poll);
    assert!(data.len() <= size);
    data.resize(size, 0);
    data
}

#[test]
fn test_create_poll() {
    let creator_key = dummy_pubkey(1);
    let poll_key = dummy_pubkey(2);

    let mut poll_account = account(&poll_key, false, vec![0u8; 1024]);
    let creator_account = account(&creator_key, true, vec![]);

    let question = b"Best programming language?".to_vec();
    let options = vec![b"Rust".to_vec(), b"Go".to_vec(), b"JavaScript".to_vec()];
    let start_time = 1_619_999_000;
    let end_time = 1_620_001_000;

    let instruction = VotingInstruction::CreatePoll {
        question: question.clone(),
        options: options.clone(),
        start_time,
        end_time,
    };
    let instruction_data = encode_instruction(&instruction);

    let result = process_instruction(
        &dummy_pubkey(0),
        &mut poll_account,
        &creator_account,
        &instruction_data,
        get_current_time(),
    );
    assert!(result.is_ok());

    let poll = decode_poll(&poll_account.data).unwrap();
    assert_eq!(poll.creator, creator_key);
    assert_eq!(poll.question, question);
    assert_eq!(poll.options, options);
    assert_eq!(poll.vote_counts, vec![0, 0, 0]);
    assert_eq!(poll.start_time, start_time);
    assert_eq!(poll.end_time, end_time);
    assert_eq!(poll.is_closed, false);
    assert!(poll.voters.is_empty());
}

#[test]
fn test_cast_vote() {
    let creator_key = dummy_pubkey(1);
    let voter_key = dummy_pubkey(3);
    let poll_key = dummy_pubkey(2);

    let poll_state = Poll {
        creator: creator_key,
        question: b"Best programming language?".to_vec(),
        options: vec![b"Rust".to_vec(), b"Go".to_vec(), b"JavaScript".to_vec()],
        vote_counts: vec![0, 0, 0],
        start_time: 1_619_999_000,
        end_time: 1_620_001_000,
        is_closed: false,
        voters: vec![],
    };

    let mut poll_account = account(&poll_key, false, buffer_with(&poll_state, 1024));
    let voter_account = account(&voter_key, true, vec![]);

    // Cast a vote for the first option (index 0).
    let instruction = VotingInstruction::Vote { option_index: 0 };
    let instruction_data = encode_instruction(&instruction);
    let result = process_instruction(
        &dummy_pubkey(0),
        &mut poll_account,
        &voter_account,
        &instruction_data,
        get_current_time(),
    );
    assert!(result.is_ok());

    let poll_after = decode_poll(&poll_account.data).unwrap();
    assert_eq!(poll_after.vote_counts[0], 1);
    assert_eq!(poll_after.voters.len(), 1);
    assert_eq!(poll_after.voters[0], voter_key);

    // A second vote from the same account must fail.
    let dup_result = process_instruction(
        &dummy_pubkey(0),
        &mut poll_account,
        &voter_account,
        &instruction_data,
        get_current_time(),
    );
    assert!(dup_result.is_err());
}

#[test]
fn test_close_poll() {
    let creator_key = dummy_pubkey(1);
    let poll_key = dummy_pubkey(2);

    let poll_state = Poll {
        creator: creator_key.clone(),
        question: b"Best programming language?".to_vec(),
        options: vec![b"Rust".to_vec(), b"Go".to_vec(), b"JavaScript".to_vec()],
        vote_counts: vec![3, 2, 1],
        start_time: 1_619_900_000,
        // End time in the past relative to the fixed current time.
        end_time: 1_619_999_000,
        is_closed: false,
        voters: vec![dummy_pubkey(3)],
    };

    let mut poll_account = account(&poll_key, false, buffer_with(&poll_state, 1024));
    let creator_account = account(&creator_key, true, vec![]);

    let instruction_data = encode_instruction(&VotingInstruction::ClosePoll);
    let result = process_instruction(
        &dummy_pubkey(0),
        &mut poll_account,
        &creator_account,
        &instruction_data,
        get_current_time(),
    );
    assert!(result.is_ok());

    let poll_after = decode_poll(&poll_account.data).unwrap();
    assert!(poll_after.is_closed);
}

#[test]
fn full_lifecycle_scenario() {
    // Create a poll with options ["A", "B"], window [100, 200].
    let creator_key = dummy_pubkey(1);
    let poll_key = dummy_pubkey(2);
    let mut poll_account = account(&poll_key, false, vec![0u8; 1024]);
    let creator_account = account(&creator_key, true, vec![]);

    let create = encode_instruction(&VotingInstruction::CreatePoll {
        question: b"A or B?".to_vec(),
        options: vec![b"A".to_vec(), b"B".to_vec()],
        start_time: 100,
        end_time: 200,
    });
    assert!(process_instruction(&dummy_pubkey(0), &mut poll_account, &creator_account, &create, 150)
        .is_ok());

    // Vote for option 0 by voter X at time 150: success, counts [1, 0].
    let voter_x = account(&dummy_pubkey(10), true, vec![]);
    let vote0 = encode_instruction(&VotingInstruction::Vote { option_index: 0 });
    assert!(process_instruction(&dummy_pubkey(0), &mut poll_account, &voter_x, &vote0, 150).is_ok());
    let poll = decode_poll(&poll_account.data).unwrap();
    assert_eq!(poll.vote_counts, vec![1, 0]);

    // Voter X again at time 150: DuplicateVote, counts unchanged.
    let before = poll_account.data.clone();
    let r = process_instruction(&dummy_pubkey(0), &mut poll_account, &voter_x, &vote0, 150);
    assert_eq!(r, Err(VoteError::DuplicateVote));
    assert_eq!(poll_account.data, before);
    assert_eq!(decode_poll(&poll_account.data).unwrap().vote_counts, vec![1, 0]);

    // Voter Y names option 5: InvalidOption.
    let voter_y = account(&dummy_pubkey(11), true, vec![]);
    let vote5 = encode_instruction(&VotingInstruction::Vote { option_index: 5 });
    let r = process_instruction(&dummy_pubkey(0), &mut poll_account, &voter_y, &vote5, 150);
    assert_eq!(r, Err(VoteError::InvalidOption));

    // Close by the creator at time 150: VotingStillActive.
    let close = encode_instruction(&VotingInstruction::ClosePoll);
    let r = process_instruction(&dummy_pubkey(0), &mut poll_account, &creator_account, &close, 150);
    assert_eq!(r, Err(VoteError::VotingStillActive));

    // Close by the creator at time 250: success, closed for good.
    assert!(process_instruction(&dummy_pubkey(0), &mut poll_account, &creator_account, &close, 250)
        .is_ok());
    assert!(decode_poll(&poll_account.data).unwrap().is_closed);

    // Vote by voter Z at time 250: PollClosed.
    let voter_z = account(&dummy_pubkey(12), true, vec![]);
    let r = process_instruction(&dummy_pubkey(0), &mut poll_account, &voter_z, &vote0, 250);
    assert_eq!(r, Err(VoteError::PollClosed));
}

#[test]
fn missing_signature_is_rejected() {
    let creator_key = dummy_pubkey(1);
    let mut poll_account = account(&dummy_pubkey(2), false, vec![0u8; 1024]);
    let unsigned_creator = account(&creator_key, false, vec![]);

    let create = encode_instruction(&VotingInstruction::CreatePoll {
        question: b"q".to_vec(),
        options: vec![b"x".to_vec()],
        start_time: 0,
        end_time: 10,
    });
    let before = poll_account.data.clone();
    let r = process_instruction(&dummy_pubkey(0), &mut poll_account, &unsigned_creator, &create, 5);
    assert_eq!(r, Err(VoteError::MissingSignature));
    assert_eq!(poll_account.data, before);

    let vote = encode_instruction(&VotingInstruction::Vote { option_index: 0 });
    let r = process_instruction(&dummy_pubkey(0), &mut poll_account, &unsigned_creator, &vote, 5);
    assert_eq!(r, Err(VoteError::MissingSignature));

    let close = encode_instruction(&VotingInstruction::ClosePoll);
    let r = process_instruction(&dummy_pubkey(0), &mut poll_account, &unsigned_creator, &close, 5);
    assert_eq!(r, Err(VoteError::MissingSignature));
}

#[test]
fn vote_outside_window_is_rejected() {
    let poll = Poll {
        creator: dummy_pubkey(1),
        question: b"q".to_vec(),
        options: vec![b"x".to_vec(), b"y".to_vec()],
        vote_counts: vec![0, 0],
        start_time: 100,
        end_time: 200,
        is_closed: false,
        voters: vec![],
    };
    let mut poll_account = account(&dummy_pubkey(2), false, buffer_with(&poll, 512));
    let voter = account(&dummy_pubkey(3), true, vec![]);
    let vote = encode_instruction(&VotingInstruction::Vote { option_index: 0 });

    let before = poll_account.data.clone();
    let r = process_instruction(&dummy_pubkey(0), &mut poll_account, &voter, &vote, 99);
    assert_eq!(r, Err(VoteError::OutsideVotingWindow));
    let r = process_instruction(&dummy_pubkey(0), &mut poll_account, &voter, &vote, 201);
    assert_eq!(r, Err(VoteError::OutsideVotingWindow));
    assert_eq!(poll_account.data, before);

    // The window is inclusive at both ends.
    let r = process_instruction(&dummy_pubkey(0), &mut poll_account, &voter, &vote, 100);
    assert!(r.is_ok());
}

#[test]
fn corrupt_state_is_rejected() {
    let mut poll_account = account(&dummy_pubkey(2), false, vec![7u8; 10]);
    let voter = account(&dummy_pubkey(3), true, vec![]);
    let vote = encode_instruction(&VotingInstruction::Vote { option_index: 0 });
    let r = process_instruction(&dummy_pubkey(0), &mut poll_account, &voter, &vote, 100);
    assert_eq!(r, Err(VoteError::CorruptState));
}

#[test]
fn mismatched_counts_are_corrupt_state() {
    // A structurally sound record whose counts do not run parallel to its
    // options does not decode as a valid record.
    let poll = Poll {
        creator: dummy_pubkey(1),
        question: b"q".to_vec(),
        options: vec![b"x".to_vec(), b"y".to_vec()],
        vote_counts: vec![0],
        start_time: 0,
        end_time: 10,
        is_closed: false,
        voters: vec![],
    };
    let mut poll_account = account(&dummy_pubkey(2), false, buffer_with(&poll, 256));
    let voter = account(&dummy_pubkey(3), true, vec![]);
    let vote = encode_instruction(&VotingInstruction::Vote { option_index: 0 });
    let r = process_instruction(&dummy_pubkey(0), &mut poll_account, &voter, &vote, 5);
    assert_eq!(r, Err(VoteError::CorruptState));
}

#[test]
fn invalid_instruction_is_rejected() {
    let mut poll_account = account(&dummy_pubkey(2), false, vec![0u8; 64]);
    let signer = account(&dummy_pubkey(1), true, vec![]);
    let r = process_instruction(&dummy_pubkey(0), &mut poll_account, &signer, &[], 5);
    assert_eq!(r, Err(VoteError::InvalidInstruction));
    let r = process_instruction(&dummy_pubkey(0), &mut poll_account, &signer, &[9u8], 5);
    assert_eq!(r, Err(VoteError::InvalidInstruction));
    // A truncated vote payload is invalid too.
    let r = process_instruction(&dummy_pubkey(0), &mut poll_account, &signer, &[1u8, 0, 0], 5);
    assert_eq!(r, Err(VoteError::InvalidInstruction));
}

#[test]
fn storage_too_small_leaves_buffer_unchanged() {
    let creator = account(&dummy_pubkey(1), true, vec![]);
    let mut poll_account = account(&dummy_pubkey(2), false, vec![5u8; 8]);
    let create = encode_instruction(&VotingInstruction::CreatePoll {
        question: b"a long enough question".to_vec(),
        options: vec![b"x".to_vec()],
        start_time: 0,
        end_time: 10,
    });
    let before = poll_account.data.clone();
    let r = process_instruction(&dummy_pubkey(0), &mut poll_account, &creator, &create, 5);
    assert_eq!(r, Err(VoteError::StorageTooSmall));
    assert_eq!(poll_account.data, before);
}

#[test]
fn counter_overflow_commits_nothing() {
    let poll = Poll {
        creator: dummy_pubkey(1),
        question: b"q".to_vec(),
        options: vec![b"x".to_vec(), b"y".to_vec()],
        vote_counts: vec![u64::MAX, 3],
        start_time: 0,
        end_time: 10,
        is_closed: false,
        voters: vec![dummy_pubkey(9)],
    };
    let mut poll_account = account(&dummy_pubkey(2), false, buffer_with(&poll, 512));
    let voter = account(&dummy_pubkey(3), true, vec![]);
    let vote = encode_instruction(&VotingInstruction::Vote { option_index: 0 });

    let before = poll_account.data.clone();
    let r = process_instruction(&dummy_pubkey(0), &mut poll_account, &voter, &vote, 5);
    assert_eq!(r, Err(VoteError::CounterOverflow));
    assert_eq!(poll_account.data, before);
    let after = decode_poll(&poll_account.data).unwrap();
    assert_eq!(after.vote_counts, vec![u64::MAX, 3]);
    assert_eq!(after.voters.len(), 1);

    // The other counter can still move.
    let vote1 = encode_instruction(&VotingInstruction::Vote { option_index: 1 });
    assert!(process_instruction(&dummy_pubkey(0), &mut poll_account, &voter, &vote1, 5).is_ok());
    assert_eq!(decode_poll(&poll_account.data).unwrap().vote_counts, vec![u64::MAX, 4]);
}

#[test]
fn close_by_non_creator_is_rejected() {
    let poll = Poll {
        creator: dummy_pubkey(1),
        question: b"q".to_vec(),
        options: vec![b"x".to_vec()],
        vote_counts: vec![0],
        start_time: 0,
        end_time: 10,
        is_closed: false,
        voters: vec![],
    };
    let mut poll_account = account(&dummy_pubkey(2), false, buffer_with(&poll, 256));
    let stranger = account(&dummy_pubkey(7), true, vec![]);
    let close = encode_instruction(&VotingInstruction::ClosePoll);
    let r = process_instruction(&dummy_pubkey(0), &mut poll_account, &stranger, &close, 50);
    assert_eq!(r, Err(VoteError::NotAuthorized));
}

#[test]
fn close_twice_is_rejected() {
    let creator_key = dummy_pubkey(1);
    let poll = Poll {
        creator: creator_key.clone(),
        question: b"q".to_vec(),
        options: vec![b"x".to_vec()],
        vote_counts: vec![0],
        start_time: 0,
        end_time: 10,
        is_closed: false,
        voters: vec![],
    };
    let mut poll_account = account(&dummy_pubkey(2), false, buffer_with(&poll, 256));
    let creator = account(&creator_key, true, vec![]);
    let close = encode_instruction(&VotingInstruction::ClosePoll);
    assert!(process_instruction(&dummy_pubkey(0), &mut poll_account, &creator, &close, 50).is_ok());
    let r = process_instruction(&dummy_pubkey(0), &mut poll_account, &creator, &close, 60);
    assert_eq!(r, Err(VoteError::AlreadyClosed));
}

#[test]
fn distinct_voters_tally_up() {
    // Three distinct signers, one option each: the counts total the number
    // of successful votes and every voter appears once.
    let creator_key = dummy_pubkey(1);
    let mut poll_account = account(&dummy_pubkey(2), false, vec![0u8; 1024]);
    let creator = account(&creator_key, true, vec![]);
    let create = encode_instruction(&VotingInstruction::CreatePoll {
        question: b"pick one".to_vec(),
        options: vec![b"x".to_vec(), b"y".to_vec()],
        start_time: 0,
        end_time: 100,
    });
    assert!(process_instruction(&dummy_pubkey(0), &mut poll_account, &creator, &create, 5).is_ok());

    for (seed, idx) in [(10u8, 0u32), (11, 1), (12, 0)] {
        let voter = account(&dummy_pubkey(seed), true, vec![]);
        let vote = encode_instruction(&VotingInstruction::Vote { option_index: idx });
        assert!(process_instruction(&dummy_pubkey(0), &mut poll_account, &voter, &vote, 5).is_ok());
    }
    let poll = decode_poll(&poll_account.data).unwrap();
    assert_eq!(poll.vote_counts, vec![2, 1]);
    assert_eq!(poll.voters.len(), 3);
    assert_eq!(poll.voters[0], dummy_pubkey(10));
    assert_eq!(poll.voters[1], dummy_pubkey(11));
    assert_eq!(poll.voters[2], dummy_pubkey(12));
}

#[test]
fn fixed_clock_value() {
    assert_eq!(get_current_time(), 1_620_000_000);
}

#[test]
fn handlers_can_be_called_directly() {
    let creator_key = dummy_pubkey(1);
    let mut poll_account = account(&dummy_pubkey(2), false, vec![0u8; 512]);
    let creator = account(&creator_key, true, vec![]);
    let voter = account(&dummy_pubkey(3), true, vec![]);

    let r = process_create_poll(
        &mut poll_account,
        &creator,
        b"direct?".to_vec(),
        vec![b"yes".to_vec(), b"no".to_vec()],
        10,
        20,
    );
    assert!(r.is_ok());
    assert!(process_vote(&mut poll_account, &voter, 1, 15).is_ok());
    assert!(process_close_poll(&mut poll_account, &creator, 25).is_ok());

    let poll = decode_poll(&poll_account.data).unwrap();
    assert_eq!(poll.vote_counts, vec![0, 1]);
    assert!(poll.is_closed);
}

#[test]
fn create_is_deliberately_permissive() {
    // Creation checks only the signature: an empty option list, an inverted
    // window, and a non-empty prior buffer are all accepted as they stand.
    let creator_key = dummy_pubkey(1);
    let mut poll_account = account(&dummy_pubkey(2), false, vec![0xEE; 512]);
    let creator = account(&creator_key, true, vec![]);

    let r = process_create_poll(&mut poll_account, &creator, b"?".to_vec(), vec![], 200, 100);
    assert!(r.is_ok());
    let poll = decode_poll(&poll_account.data).unwrap();
    assert!(poll.options.is_empty());
    assert!(poll.vote_counts.is_empty());
    assert_eq!(poll.start_time, 200);
    assert_eq!(poll.end_time, 100);
    // No instant within an inverted window: every vote is outside it.
    let voter = account(&dummy_pubkey(3), true, vec![]);
    for now in [0, 100, 150, 200, u64::MAX] {
        assert_eq!(
            process_vote(&mut poll_account, &voter, 0, now),
            Err(VoteError::OutsideVotingWindow)
        );
    }
}

#[test]
fn close_never_lacks_storage() {
    // A closed record is exactly as long as the open one it replaces, so a
    // close that passes its checks always fits the buffer it was read from.
    let creator_key = dummy_pubkey(1);
    let poll = Poll {
        creator: creator_key.clone(),
        question: b"q".to_vec(),
        options: vec![b"x".to_vec()],
        vote_counts: vec![1],
        start_time: 0,
        end_time: 10,
        is_closed: false,
        voters: vec![dummy_pubkey(4)],
    };
    // The buffer is exactly the encoded size: no slack at all.
    let bytes = encode_poll(&poll);
    let mut poll_account = account(&dummy_pubkey(2), false, bytes);
    let creator = account(&creator_key, true, vec![]);
    assert!(process_close_poll(&mut poll_account, &creator, 50).is_ok());
    assert!(decode_poll(&poll_account.data).unwrap().is_closed);
}
