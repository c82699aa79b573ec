use voting::{decode_instruction, decode_poll, encode_instruction, encode_poll, Poll, VoteError,
    VotingInstruction};

fn key(seed: u8) -> Vec<u8> {
    let mut bytes = vec![0u8; 32];
    bytes[0] = seed;
    bytes
}

fn sample_poll() -> Poll {
    Poll {
        creator: key(1),
        question: b"Best programming language?".to_vec(),
        options: vec![b"Rust".to_vec(), b"Go".to_vec(), b"JavaScript".to_vec()],
        vote_counts: vec![3, 0, 7],
        start_time: 1_619_999_000,
        end_time: 1_620_001_000,
        is_closed: true,
        voters: vec![key(5), key(6)],
    }
}

#[test]
fn poll_round_trips() {
    let poll = sample_poll();
    let bytes = encode_poll(&poll);
    let back = decode_poll(&bytes).unwrap();
    assert_eq!(back.creator, poll.creator);
    assert_eq!(back.question, poll.question);
    assert_eq!(back.options, poll.options);
    assert_eq!(back.vote_counts, poll.vote_counts);
    assert_eq!(back.start_time, poll.start_time);
    assert_eq!(back.end_time, poll.end_time);
    assert_eq!(back.is_closed, poll.is_closed);
    assert_eq!(back.voters, poll.voters);
}

#[test]
fn poll_round_trips_through_slack() {
    // Host buffers may be larger than the record; decode ignores the slack.
    let poll = sample_poll();
    let mut bytes = encode_poll(&poll);
    bytes.extend_from_slice(&[0xAB; 100]);
    let back = decode_poll(&bytes).unwrap();
    assert_eq!(back.question, poll.question);
    assert_eq!(back.voters, poll.voters);
}

#[test]
fn truncated_poll_is_rejected() {
    let poll = sample_poll();
    let bytes = encode_poll(&poll);
    for cut in [0, 1, 31, 36, 40, bytes.len() - 1] {
        assert_eq!(
            decode_poll(&bytes[..cut]).err(),
            Some(VoteError::CorruptState),
            "cut at {cut}"
        );
    }
}

#[test]
fn stray_flag_byte_is_rejected() {
    // The closed flag must be exactly 0 or 1.
    let poll = sample_poll();
    let mut bytes = encode_poll(&poll);
    let flag_at = bytes.len() - 1 - 4 - 2 * 32;
    assert_eq!(bytes[flag_at], 1);
    bytes[flag_at] = 2;
    assert_eq!(decode_poll(&bytes).err(), Some(VoteError::CorruptState));
}

#[test]
fn oversized_length_prefix_is_rejected() {
    // A question length prefix that exceeds the remaining bytes.
    let poll = sample_poll();
    let mut bytes = encode_poll(&poll);
    bytes[32] = 0xFF;
    bytes[33] = 0xFF;
    assert_eq!(decode_poll(&bytes).err(), Some(VoteError::CorruptState));
}

#[test]
fn instruction_exact_bytes() {
    assert_eq!(
        encode_instruction(&VotingInstruction::Vote { option_index: 3 }),
        vec![1, 3, 0, 0, 0]
    );
    assert_eq!(encode_instruction(&VotingInstruction::ClosePoll), vec![2]);
    let create = encode_instruction(&VotingInstruction::CreatePoll {
        question: b"ab".to_vec(),
        options: vec![b"x".to_vec()],
        start_time: 5,
        end_time: 600,
    });
    let expected = [
        vec![0u8],                      // tag
        vec![2, 0, 0, 0],               // question length
        b"ab".to_vec(),                 // question
        vec![1, 0, 0, 0],               // option count
        vec![1, 0, 0, 0],               // option length
        b"x".to_vec(),                  // option
        vec![5, 0, 0, 0, 0, 0, 0, 0],   // start time
        vec![88, 2, 0, 0, 0, 0, 0, 0],  // end time (600 = 2 * 256 + 88)
    ]
    .concat();
    assert_eq!(create, expected);
}

#[test]
fn instruction_round_trips() {
    let cases = vec![
        VotingInstruction::CreatePoll {
            question: b"q?".to_vec(),
            options: vec![b"a".to_vec(), b"bb".to_vec(), vec![]],
            start_time: 0,
            end_time: u64::MAX,
        },
        VotingInstruction::Vote { option_index: u32::MAX },
        VotingInstruction::ClosePoll,
    ];
    for instr in cases {
        let bytes = encode_instruction(&instr);
        let back = decode_instruction(&bytes).unwrap();
        match (&instr, &back) {
            (
                VotingInstruction::CreatePoll { question, options, start_time, end_time },
                VotingInstruction::CreatePoll {
                    question: q2,
                    options: o2,
                    start_time: s2,
                    end_time: e2,
                },
            ) => {
                assert_eq!(question, q2);
                assert_eq!(options, o2);
                assert_eq!(start_time, s2);
                assert_eq!(end_time, e2);
            },
            (
                VotingInstruction::Vote { option_index },
                VotingInstruction::Vote { option_index: i2 },
            ) => assert_eq!(option_index, i2),
            (VotingInstruction::ClosePoll, VotingInstruction::ClosePoll) => {},
            _ => panic!("variant changed in the round trip"),
        }
    }
}

#[test]
fn empty_record_shapes_round_trip() {
    // Permissive creation allows empty questions and option lists.
    let poll = Poll {
        creator: key(9),
        question: vec![],
        options: vec![],
        vote_counts: vec![],
        start_time: 0,
        end_time: 0,
        is_closed: false,
        voters: vec![],
    };
    let bytes = encode_poll(&poll);
    assert_eq!(bytes.len(), 32 + 4 + 4 + 4 + 8 + 8 + 1 + 4);
    let back = decode_poll(&bytes).unwrap();
    assert_eq!(back.options, poll.options);
    assert_eq!(back.question, poll.question);
}

#[test]
fn poll_encoding_matches_borsh() {
    // The wire format is the standard little-endian, length-prefixed layout;
    // borsh over an equivalent tuple must produce the same bytes.
    let poll = sample_poll();
    let mut creator = [0u8; 32];
    creator.copy_from_slice(&poll.creator);
    let mut voter_a = [0u8; 32];
    voter_a.copy_from_slice(&poll.voters[0]);
    let mut voter_b = [0u8; 32];
    voter_b.copy_from_slice(&poll.voters[1]);
    let equivalent = (
        creator,
        "Best programming language?".to_string(),
        vec!["Rust".to_string(), "Go".to_string(), "JavaScript".to_string()],
        vec![3u64, 0, 7],
        1_619_999_000u64,
        1_620_001_000u64,
        true,
        vec![voter_a, voter_b],
    );
    let reference = borsh::to_vec(&equivalent).unwrap();
    assert_eq!(encode_poll(&poll), reference);
}

#[test]
fn instruction_encoding_matches_borsh() {
    // Variant tag, then the payload, exactly as borsh lays out an enum.
    let instr = VotingInstruction::CreatePoll {
        question: b"Best programming language?".to_vec(),
        options: vec![b"Rust".to_vec(), b"JavaScript".to_vec()],
        start_time: 1_619_999_000,
        end_time: 1_620_001_000,
    };
    let equivalent = (
        0u8,
        "Best programming language?".to_string(),
        vec!["Rust".to_string(), "JavaScript".to_string()],
        1_619_999_000u64,
        1_620_001_000u64,
    );
    assert_eq!(encode_instruction(&instr), borsh::to_vec(&equivalent).unwrap());

    let vote = VotingInstruction::Vote { option_index: 7 };
    assert_eq!(encode_instruction(&vote), borsh::to_vec(&(1u8, 7u32)).unwrap());
}
