//! The instruction processor: decode, dispatch, and the three handlers
//! (create, vote, close), each a verified transition over one account's
//! byte buffer.

use vstd::prelude::*;
use vstd::slice::slice_to_vec;
use crate::codec::{
    decode_instruction, decode_poll, enc_bool, enc_poll, encode_poll, parse_instruction,
    spec_decode_poll,
};
use crate::instruction::{InstructionView, VotingInstruction};
use crate::poll::{created_poll, try_close, try_vote, views_of, Poll, VoteError, KEY_LEN};

verus! {

/// One account handle as the host hands it over: an identity, whether that
/// identity signed the invocation (the host verifies signatures before the
/// processor runs), and the account's storage buffer.
pub struct Account {
    /// The account's 32-byte identity.
    pub key: Vec<u8>,
    /// Whether this identity is an authenticated signer of the invocation.
    pub is_signer: bool,
    /// The account's storage, owned and sized by the host.
    pub data: Vec<u8>,
}

impl Account {
    /// The identity has the size the wire format gives an identity.
    pub open spec fn wf(self) -> bool {
        self.key@.len() == KEY_LEN
    }
}

/// The identity and signer flag survive a handler untouched; only the
/// storage changes.
pub open spec fn same_meta(a: Account, b: Account) -> bool {
    a.key@ == b.key@ && a.is_signer == b.is_signer
}

/// Current unix time in seconds. The host runtime supplies the clock; this
/// build returns a fixed timestamp, as a stand-in for the host's clock
/// collaborator. Time-sensitive handlers take the time as an explicit
/// parameter, so callers decide which clock to trust.
pub fn get_current_time() -> (t: u64)
    ensures
        t == 1_620_000_000u64,
{
    1_620_000_000
}

/// What create leaves behind: on a missing signature or a too-small buffer
/// nothing changes; otherwise the fresh record sits at the front of the
/// buffer and the slack after it is untouched.
pub open spec fn create_post(
    d0: Seq<u8>,
    d1: Seq<u8>,
    creator: Seq<u8>,
    signed: bool,
    question: Seq<u8>,
    options: Seq<Seq<u8>>,
    start_time: u64,
    end_time: u64,
    r: Result<(), VoteError>,
) -> bool {
    if !signed {
        r == Err::<(), VoteError>(VoteError::MissingSignature) && d1 == d0
    } else {
        let bytes = enc_poll(created_poll(creator, question, options, start_time, end_time));
        if bytes.len() > d0.len() {
            r == Err::<(), VoteError>(VoteError::StorageTooSmall) && d1 == d0
        } else {
            r == Ok::<(), VoteError>(()) && d1 == bytes + d0.skip(bytes.len() as int)
        }
    }
}

/// What vote leaves behind: the first failing check of `try_vote` decides
/// the error and nothing changes; when every check passes the updated
/// record replaces the old one at the front of the buffer, all or nothing.
pub open spec fn vote_post(
    d0: Seq<u8>,
    d1: Seq<u8>,
    voter: Seq<u8>,
    signed: bool,
    option_index: u32,
    now: u64,
    r: Result<(), VoteError>,
) -> bool {
    if !signed {
        r == Err::<(), VoteError>(VoteError::MissingSignature) && d1 == d0
    } else {
        match spec_decode_poll(d0) {
            None => r == Err::<(), VoteError>(VoteError::CorruptState) && d1 == d0,
            Some(p) => match try_vote(p, voter, true, option_index, now) {
                Err(e) => r == Err::<(), VoteError>(e) && d1 == d0,
                Ok(p2) => if p2.voters.len() > u32::MAX || enc_poll(p2).len() > d0.len() {
                    r == Err::<(), VoteError>(VoteError::StorageTooSmall) && d1 == d0
                } else {
                    r == Ok::<(), VoteError>(()) && d1 == enc_poll(p2) + d0.skip(
                        enc_poll(p2).len() as int,
                    )
                },
            },
        }
    }
}

/// What close leaves behind: the first failing check of `try_close`
/// decides the error and nothing changes; when every check passes the close
/// succeeds — the closed record is no longer than the record the buffer
/// already held, so it always fits.
pub open spec fn close_post(
    d0: Seq<u8>,
    d1: Seq<u8>,
    caller: Seq<u8>,
    signed: bool,
    now: u64,
    r: Result<(), VoteError>,
) -> bool {
    if !signed {
        r == Err::<(), VoteError>(VoteError::MissingSignature) && d1 == d0
    } else {
        match spec_decode_poll(d0) {
            None => r == Err::<(), VoteError>(VoteError::CorruptState) && d1 == d0,
            Some(p) => match try_close(p, caller, true, now) {
                Err(e) => r == Err::<(), VoteError>(e) && d1 == d0,
                Ok(p2) => r == Ok::<(), VoteError>(()) && d1 == enc_poll(p2) + d0.skip(
                    enc_poll(p2).len() as int,
                ),
            },
        }
    }
}

/// Whether two byte vectors hold the same bytes.
fn bytes_eq(a: &Vec<u8>, b: &Vec<u8>) -> (r: bool)
    ensures
        r == (a@ == b@),
{
    if a.len() != b.len() {
        return false;
    }
    let mut j: usize = 0;
    while j < a.len()
        invariant
            j <= a@.len(),
            a@.len() == b@.len(),
            forall|m: int| 0 <= m < j ==> a@[m] == b@[m],
        decreases a@.len() - j,
    {
        if a[j] != b[j] {
            return false;
        }
        j = j + 1;
    }
    proof {
        assert(a@ =~= b@);
    }
    true
}

/// Whether `key` is already a member of `keys` (exact equality over the
/// full identity, order-independent).
fn contains_key(keys: &Vec<Vec<u8>>, key: &Vec<u8>) -> (r: bool)
    ensures
        r == views_of(keys@).contains(key@),
{
    let mut j: usize = 0;
    while j < keys.len()
        invariant
            j <= keys@.len(),
            forall|m: int| 0 <= m < j ==> views_of(keys@)[m] != key@,
        decreases keys@.len() - j,
    {
        if bytes_eq(&keys[j], key) {
            assert(views_of(keys@)[j as int] == key@);
            return true;
        }
        j = j + 1;
    }
    assert(!views_of(keys@).contains(key@));
    false
}

/// Writes `bytes` over the front of `buf`, leaving the slack after them
/// untouched; fails, changing nothing, when they do not fit. The write is
/// the handlers' last step, so a failed write commits no other effect.
fn store_bytes(buf: &mut Vec<u8>, bytes: &Vec<u8>) -> (r: Result<(), VoteError>)
    ensures
        (match r {
            Ok(_) => bytes@.len() <= old(buf)@.len() && final(buf)@ == bytes@ + old(buf)@.skip(
                bytes@.len() as int,
            ),
            Err(e) => e == VoteError::StorageTooSmall && bytes@.len() > old(buf)@.len()
                && final(buf)@ == old(buf)@,
        }),
{
    if bytes.len() > buf.len() {
        return Err(VoteError::StorageTooSmall);
    }
    let mut nb: Vec<u8> = Vec::new();
    let mut j: usize = 0;
    while j < bytes.len()
        invariant
            j <= bytes@.len(),
            nb@ == bytes@.take(j as int),
        decreases bytes@.len() - j,
    {
        nb.push(bytes[j]);
        assert(bytes@.take(j + 1) =~= bytes@.take(j as int).push(bytes@[j as int]));
        j = j + 1;
    }
    assert(nb@ =~= bytes@) by {
        assert(bytes@.take(bytes@.len() as int) =~= bytes@);
    }
    let mut k: usize = bytes.len();
    while k < buf.len()
        invariant
            bytes@.len() <= k <= buf@.len(),
            buf@ == old(buf)@,
            nb@ == bytes@ + buf@.subrange(bytes@.len() as int, k as int),
        decreases buf@.len() - k,
    {
        nb.push(buf[k]);
        assert(buf@.subrange(bytes@.len() as int, k + 1) =~= buf@.subrange(
            bytes@.len() as int,
            k as int,
        ).push(buf@[k as int]));
        assert(bytes@ + buf@.subrange(bytes@.len() as int, k + 1) =~= (bytes@ + buf@.subrange(
            bytes@.len() as int,
            k as int,
        )).push(buf@[k as int]));
        k = k + 1;
    }
    assert(buf@.subrange(bytes@.len() as int, buf@.len() as int) =~= buf@.skip(
        bytes@.len() as int,
    ));
    *buf = nb;
    Ok(())
}

/// Creates a new poll: builds a fresh record for the signing creator and
/// writes it into the poll account. Deliberately permissive, as the record
/// model asks: no check that the window is ordered, the options non-empty,
/// or the account fresh.
pub fn process_create_poll(
    poll_account: &mut Account,
    creator_account: &Account,
    question: Vec<u8>,
    options: Vec<Vec<u8>>,
    start_time: u64,
    end_time: u64,
) -> (r: Result<(), VoteError>)
    requires
        creator_account.wf(),
        question@.len() <= u32::MAX,
        options@.len() <= u32::MAX,
        forall|i: int| 0 <= i < options@.len() ==> (#[trigger] options@[i]@).len() <= u32::MAX,
    ensures
        same_meta(*final(poll_account), *old(poll_account)),
        create_post(
            old(poll_account).data@,
            final(poll_account).data@,
            creator_account.key@,
            creator_account.is_signer,
            question@,
            views_of(options@),
            start_time,
            end_time,
            r,
        ),
{
    if !creator_account.is_signer {
        return Err(VoteError::MissingSignature);
    }
    let mut vote_counts: Vec<u64> = Vec::new();
    let mut k: usize = 0;
    while k < options.len()
        invariant
            k <= options@.len(),
            vote_counts@.len() == k,
            forall|m: int| 0 <= m < k ==> vote_counts@[m] == 0u64,
        decreases options@.len() - k,
    {
        vote_counts.push(0);
        k = k + 1;
    }
    let creator = slice_to_vec(creator_account.key.as_slice());
    let poll = Poll {
        creator,
        question,
        options,
        vote_counts,
        start_time,
        end_time,
        is_closed: false,
        voters: Vec::new(),
    };
    proof {
        assert(poll@.vote_counts =~= created_poll(
            creator_account.key@,
            poll@.question,
            poll@.options,
            start_time,
            end_time,
        ).vote_counts);
        assert(poll@.voters =~= Seq::<Seq<u8>>::empty());
        assert(poll@ =~= created_poll(
            creator_account.key@,
            poll@.question,
            poll@.options,
            start_time,
            end_time,
        ));
    }
    let bytes = encode_poll(&poll);
    match store_bytes(&mut poll_account.data, &bytes) {
        Ok(_) => Ok(()),
        Err(e) => Err(e),
    }
}

/// Casts a vote: validates the request in order (signature, record, open,
/// window, first vote, option, counter) and then commits the incremented
/// count and the voter's identity in one write.
pub fn process_vote(
    poll_account: &mut Account,
    voter_account: &Account,
    option_index: u32,
    now: u64,
) -> (r: Result<(), VoteError>)
    requires
        voter_account.wf(),
    ensures
        same_meta(*final(poll_account), *old(poll_account)),
        vote_post(
            old(poll_account).data@,
            final(poll_account).data@,
            voter_account.key@,
            voter_account.is_signer,
            option_index,
            now,
            r,
        ),
{
    if !voter_account.is_signer {
        return Err(VoteError::MissingSignature);
    }
    let mut poll = match decode_poll(poll_account.data.as_slice()) {
        Ok(p) => p,
        Err(e) => {
            return Err(e);
        },
    };
    let ghost pv = poll@;
    if poll.is_closed {
        return Err(VoteError::PollClosed);
    }
    if now < poll.start_time || now > poll.end_time {
        return Err(VoteError::OutsideVotingWindow);
    }
    if contains_key(&poll.voters, &voter_account.key) {
        return Err(VoteError::DuplicateVote);
    }
    let idx = option_index as usize;
    if idx >= poll.options.len() {
        return Err(VoteError::InvalidOption);
    }
    let count = poll.vote_counts[idx];
    if count == u64::MAX {
        return Err(VoteError::CounterOverflow);
    }
    if poll.voters.len() >= u32::MAX as usize {
        // One more voter would not fit the list's 32-bit length prefix, so
        // the grown record has no encoding that the account could store.
        return Err(VoteError::StorageTooSmall);
    }
    poll.vote_counts[idx] = count + 1;
    poll.voters.push(slice_to_vec(voter_account.key.as_slice()));
    proof {
        let p2 = crate::poll::with_vote(pv, voter_account.key@, option_index as int);
        assert(poll@.voters =~= p2.voters);
        assert(poll@ =~= p2);
        assert(poll@.wf());
    }
    let bytes = encode_poll(&poll);
    match store_bytes(&mut poll_account.data, &bytes) {
        Ok(_) => Ok(()),
        Err(e) => Err(e),
    }
}

/// Closes a poll: only its creator may close it, only once, and only after
/// the voting window has ended. Irreversible: no handler reopens a poll.
pub fn process_close_poll(poll_account: &mut Account, caller_account: &Account, now: u64) -> (r:
    Result<(), VoteError>)
    requires
        caller_account.wf(),
    ensures
        same_meta(*final(poll_account), *old(poll_account)),
        close_post(
            old(poll_account).data@,
            final(poll_account).data@,
            caller_account.key@,
            caller_account.is_signer,
            now,
            r,
        ),
{
    if !caller_account.is_signer {
        return Err(VoteError::MissingSignature);
    }
    let mut poll = match decode_poll(poll_account.data.as_slice()) {
        Ok(p) => p,
        Err(e) => {
            return Err(e);
        },
    };
    let ghost pv = poll@;
    if !bytes_eq(&poll.creator, &caller_account.key) {
        return Err(VoteError::NotAuthorized);
    }
    if poll.is_closed {
        return Err(VoteError::AlreadyClosed);
    }
    if now < poll.end_time {
        return Err(VoteError::VotingStillActive);
    }
    poll.is_closed = true;
    proof {
        assert(poll@ =~= try_close(pv, caller_account.key@, true, now)->Ok_0);
        assert(poll@.wf());
        // Only the closed flag changed, and both flag values take one byte,
        // so the record's encoding is exactly as long as before and fits
        // the buffer it was read from.
        assert(enc_poll(poll@).len() == enc_poll(pv).len()) by {
            assert(enc_bool(poll@.is_closed).len() == 1 && enc_bool(pv.is_closed).len() == 1);
        }
    }
    let bytes = encode_poll(&poll);
    match store_bytes(&mut poll_account.data, &bytes) {
        Ok(_) => Ok(()),
        Err(e) => Err(e),
    }
}

/// Entry point of the module: decodes the instruction bytes and dispatches
/// to the handler, which reads the poll account, validates the request
/// against the signer and the supplied time, and persists the new record.
pub fn process_instruction(
    _program_id: &[u8],
    poll_account: &mut Account,
    signer_account: &Account,
    instruction_data: &[u8],
    now: u64,
) -> (r: Result<(), VoteError>)
    requires
        signer_account.wf(),
    ensures
        same_meta(*final(poll_account), *old(poll_account)),
        (match parse_instruction(instruction_data@) {
            None => r == Err::<(), VoteError>(VoteError::InvalidInstruction)
                && final(poll_account).data@ == old(poll_account).data@,
            Some(iv) => match iv {
                InstructionView::CreatePoll { question, options, start_time, end_time } => create_post(
                    old(poll_account).data@,
                    final(poll_account).data@,
                    signer_account.key@,
                    signer_account.is_signer,
                    question,
                    options,
                    start_time,
                    end_time,
                    r,
                ),
                InstructionView::Vote { option_index } => vote_post(
                    old(poll_account).data@,
                    final(poll_account).data@,
                    signer_account.key@,
                    signer_account.is_signer,
                    option_index,
                    now,
                    r,
                ),
                InstructionView::ClosePoll => close_post(
                    old(poll_account).data@,
                    final(poll_account).data@,
                    signer_account.key@,
                    signer_account.is_signer,
                    now,
                    r,
                ),
            },
        }),
{
    let instruction = match decode_instruction(instruction_data) {
        Ok(i) => i,
        Err(e) => {
            return Err(e);
        },
    };
    match instruction {
        VotingInstruction::CreatePoll { question, options, start_time, end_time } => {
            proof {
                assert forall|i: int| 0 <= i < options@.len() implies (#[trigger] options@[i]@).len()
                    <= u32::MAX by {
                    assert(views_of(options@)[i] == options@[i]@);
                }
            }
            process_create_poll(poll_account, signer_account, question, options, start_time, end_time)
        },
        VotingInstruction::Vote { option_index } => {
            process_vote(poll_account, signer_account, option_index, now)
        },
        VotingInstruction::ClosePoll => process_close_poll(poll_account, signer_account, now),
    }
}

} // verus!
