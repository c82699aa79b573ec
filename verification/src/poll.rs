//! The poll record: its fields, its mathematical view, and the record-level
//! state transitions (create, vote, close) that the handlers implement.

use vstd::prelude::*;

verus! {

/// Number of bytes in an account identity (a public key).
pub const KEY_LEN: usize = 32;

/// The failures an invocation can end with. Every failure aborts the
/// invocation with no mutation committed.
#[derive(Debug, PartialEq, Eq, Structural, Clone, Copy)]
pub enum VoteError {
    /// Instruction bytes do not decode to a known variant.
    InvalidInstruction,
    /// A required account was not an authenticated signer.
    MissingSignature,
    /// Account buffer does not decode as a valid poll record.
    CorruptState,
    /// The encoded record does not fit the account's buffer.
    StorageTooSmall,
    /// Vote on a poll that has been closed.
    PollClosed,
    /// Vote outside `[start_time, end_time]`.
    OutsideVotingWindow,
    /// A second vote by the same signer.
    DuplicateVote,
    /// `option_index` is not a valid index into the options.
    InvalidOption,
    /// A vote count is already at the maximum representable value.
    CounterOverflow,
    /// Close by a caller other than the poll's creator.
    NotAuthorized,
    /// Close of a poll that is already closed.
    AlreadyClosed,
    /// Close before the voting window has ended.
    VotingStillActive,
}

/// The poll state stored in an account, one record per poll.
///
/// Text (the question and the options) is carried as UTF-8 bytes: the
/// record's logic never inspects it, only stores and returns it verbatim.
#[derive(Debug)]
pub struct Poll {
    /// Creator of the poll (32-byte identity).
    pub creator: Vec<u8>,
    /// Poll question.
    pub question: Vec<u8>,
    /// Poll options.
    pub options: Vec<Vec<u8>>,
    /// Vote count per option (parallel to `options`).
    pub vote_counts: Vec<u64>,
    /// Poll start time (unix timestamp in seconds).
    pub start_time: u64,
    /// Poll end time (unix timestamp in seconds).
    pub end_time: u64,
    /// Whether the poll is closed.
    pub is_closed: bool,
    /// Identities that have voted (to prevent double-voting).
    pub voters: Vec<Vec<u8>>,
}

/// The mathematical model of a poll record.
#[verifier::ext_equal]
pub struct PollView {
    pub creator: Seq<u8>,
    pub question: Seq<u8>,
    pub options: Seq<Seq<u8>>,
    pub vote_counts: Seq<u64>,
    pub start_time: u64,
    pub end_time: u64,
    pub is_closed: bool,
    pub voters: Seq<Seq<u8>>,
}

impl PollView {
    /// The record can be carried by the wire format: identities are 32
    /// bytes and every length fits its 32-bit prefix.
    pub open spec fn wf(self) -> bool {
        &&& self.creator.len() == KEY_LEN
        &&& self.question.len() <= u32::MAX
        &&& self.options.len() <= u32::MAX
        &&& forall|i: int| 0 <= i < self.options.len() ==> (#[trigger] self.options[i]).len() <= u32::MAX
        &&& self.vote_counts.len() <= u32::MAX
        &&& self.voters.len() <= u32::MAX
        &&& forall|i: int| 0 <= i < self.voters.len() ==> (#[trigger] self.voters[i]).len() == KEY_LEN
    }

    /// A valid record: well formed, with one count per option.
    pub open spec fn valid(self) -> bool {
        &&& self.wf()
        &&& self.vote_counts.len() == self.options.len()
    }
}

/// The record a successful create builds: counts all zero, no voters, open.
pub open spec fn created_poll(
    creator: Seq<u8>,
    question: Seq<u8>,
    options: Seq<Seq<u8>>,
    start_time: u64,
    end_time: u64,
) -> PollView {
    PollView {
        creator,
        question,
        options,
        vote_counts: Seq::new(options.len(), |i: int| 0u64),
        start_time,
        end_time,
        is_closed: false,
        voters: Seq::empty(),
    }
}

/// The record after a successful vote: one count incremented, the voter
/// appended, everything else untouched.
pub open spec fn with_vote(p: PollView, voter: Seq<u8>, option_index: int) -> PollView {
    PollView {
        vote_counts: p.vote_counts.update(option_index, (p.vote_counts[option_index] + 1) as u64),
        voters: p.voters.push(voter),
        ..p
    }
}

/// The vote transition: the ordered validation of a vote request on a
/// decoded record, and the record it yields when every check passes.
pub open spec fn try_vote(
    p: PollView,
    voter: Seq<u8>,
    signed: bool,
    option_index: u32,
    now: u64,
) -> Result<PollView, VoteError> {
    if !signed {
        Err(VoteError::MissingSignature)
    } else if p.is_closed {
        Err(VoteError::PollClosed)
    } else if now < p.start_time || now > p.end_time {
        Err(VoteError::OutsideVotingWindow)
    } else if p.voters.contains(voter) {
        Err(VoteError::DuplicateVote)
    } else if option_index as int >= p.options.len() {
        Err(VoteError::InvalidOption)
    } else if p.vote_counts[option_index as int] == u64::MAX {
        Err(VoteError::CounterOverflow)
    } else {
        Ok(with_vote(p, voter, option_index as int))
    }
}

/// The close transition: the ordered validation of a close request, and
/// the terminally closed record it yields when every check passes.
pub open spec fn try_close(p: PollView, caller: Seq<u8>, signed: bool, now: u64) -> Result<
    PollView,
    VoteError,
> {
    if !signed {
        Err(VoteError::MissingSignature)
    } else if p.creator != caller {
        Err(VoteError::NotAuthorized)
    } else if p.is_closed {
        Err(VoteError::AlreadyClosed)
    } else if now < p.end_time {
        Err(VoteError::VotingStillActive)
    } else {
        Ok(PollView { is_closed: true, ..p })
    }
}

/// The total of all vote counts.
pub open spec fn sum_counts(s: Seq<u64>) -> int
    decreases s.len(),
{
    if s.len() == 0 {
        0
    } else {
        s[0] + sum_counts(s.drop_first())
    }
}

/// Replacing one count changes the total by the difference.
proof fn lemma_sum_update(s: Seq<u64>, i: int, v: u64)
    requires
        0 <= i < s.len(),
    ensures
        sum_counts(s.update(i, v)) == sum_counts(s) - s[i] + v,
    decreases s.len(),
{
    if i == 0 {
        assert(s.update(0, v)[0] == v);
        assert(s.update(0, v).drop_first() =~= s.drop_first());
    } else {
        assert(s.update(i, v)[0] == s[0]);
        assert(s.update(i, v).drop_first() =~= s.drop_first().update(i - 1, v));
        lemma_sum_update(s.drop_first(), i - 1, v);
    }
}

/// A run of zero counts totals zero.
pub proof fn lemma_sum_zero(n: nat)
    ensures
        sum_counts(Seq::new(n, |i: int| 0u64)) == 0,
    decreases n,
{
    if n > 0 {
        assert(Seq::new(n, |i: int| 0u64).drop_first() =~= Seq::new(
            (n - 1) as nat,
            |i: int| 0u64,
        ));
        lemma_sum_zero((n - 1) as nat);
    }
}

/// Creation initializes zeros: the record create builds has one zero count
/// per option, no voters, and stands open; its counts total zero.
pub proof fn lemma_create_initializes(
    creator: Seq<u8>,
    question: Seq<u8>,
    options: Seq<Seq<u8>>,
    start_time: u64,
    end_time: u64,
)
    ensures
        created_poll(creator, question, options, start_time, end_time).vote_counts.len()
            == options.len(),
        forall|i: int|
            0 <= i < options.len() ==> created_poll(
                creator,
                question,
                options,
                start_time,
                end_time,
            ).vote_counts[i] == 0u64,
        created_poll(creator, question, options, start_time, end_time).voters
            == Seq::<Seq<u8>>::empty(),
        !created_poll(creator, question, options, start_time, end_time).is_closed,
        sum_counts(created_poll(creator, question, options, start_time, end_time).vote_counts)
            == 0,
{
    lemma_sum_zero(options.len());
}

/// One successful vote raises the total by exactly one, appends exactly
/// that voter, touches nothing else, and is open only to a voter who had
/// not voted; it keeps the voter list free of duplicates.
pub proof fn lemma_try_vote_step(p: PollView, voter: Seq<u8>, idx: u32, now: u64)
    requires
        p.vote_counts.len() == p.options.len(),
    ensures
        (match try_vote(p, voter, true, idx, now) {
            Ok(q) => {
                &&& sum_counts(q.vote_counts) == sum_counts(p.vote_counts) + 1
                &&& q.vote_counts.len() == q.options.len()
                &&& q.voters == p.voters.push(voter)
                &&& !p.voters.contains(voter)
                &&& q.options == p.options
                &&& q.creator == p.creator
                &&& q.question == p.question
                &&& q.start_time == p.start_time
                &&& q.end_time == p.end_time
                &&& q.is_closed == p.is_closed
                &&& (p.voters.no_duplicates() ==> q.voters.no_duplicates())
            },
            Err(_) => true,
        }),
{
    if try_vote(p, voter, true, idx, now) is Ok {
        let q = try_vote(p, voter, true, idx, now)->Ok_0;
        lemma_sum_update(
            p.vote_counts,
            idx as int,
            (p.vote_counts[idx as int] + 1) as u64,
        );
        if p.voters.no_duplicates() {
            assert forall|i: int, j: int|
                0 <= i < q.voters.len() && 0 <= j < q.voters.len() && i != j implies q.voters[i]
                != q.voters[j] by {
                if i < p.voters.len() && j < p.voters.len() {
                    assert(p.voters[i] == q.voters[i] && p.voters[j] == q.voters[j]);
                } else if j == p.voters.len() {
                    assert(q.voters[i] == p.voters[i] && q.voters[j] == voter);
                    assert(p.voters[i] == voter ==> p.voters.contains(voter));
                } else {
                    assert(q.voters[j] == p.voters[j] && q.voters[i] == voter);
                    assert(p.voters[j] == voter ==> p.voters.contains(voter));
                }
            }
        }
    }
}

/// One attempted vote, as a record: who tried, whether they signed, which
/// option, and at what time.
pub struct VoteAttempt {
    pub voter: Seq<u8>,
    pub signed: bool,
    pub option_index: u32,
    pub now: u64,
}

/// The record after a sequence of vote attempts; a failed attempt leaves
/// the record as it was.
pub open spec fn run_votes(p: PollView, reqs: Seq<VoteAttempt>) -> PollView
    decreases reqs.len(),
{
    if reqs.len() == 0 {
        p
    } else {
        let next = match try_vote(p, reqs[0].voter, reqs[0].signed, reqs[0].option_index, reqs[0].now) {
            Ok(q) => q,
            Err(_) => p,
        };
        run_votes(next, reqs.drop_first())
    }
}

/// How many of a sequence of vote attempts succeed.
pub open spec fn successful_votes(p: PollView, reqs: Seq<VoteAttempt>) -> int
    decreases reqs.len(),
{
    if reqs.len() == 0 {
        0
    } else {
        match try_vote(p, reqs[0].voter, reqs[0].signed, reqs[0].option_index, reqs[0].now) {
            Ok(q) => 1 + successful_votes(q, reqs.drop_first()),
            Err(_) => successful_votes(p, reqs.drop_first()),
        }
    }
}

/// Vote monotonicity and exclusivity: over any sequence of vote attempts,
/// the counts total grows by exactly the number of successful attempts, and
/// a voter list without duplicates never gains one — each identity appears
/// at most once however many attempts it makes.
pub proof fn lemma_vote_tally(p: PollView, reqs: Seq<VoteAttempt>)
    requires
        p.vote_counts.len() == p.options.len(),
    ensures
        sum_counts(run_votes(p, reqs).vote_counts) == sum_counts(p.vote_counts) + successful_votes(
            p,
            reqs,
        ),
        run_votes(p, reqs).vote_counts.len() == run_votes(p, reqs).options.len(),
        p.voters.no_duplicates() ==> run_votes(p, reqs).voters.no_duplicates(),
    decreases reqs.len(),
{
    if reqs.len() > 0 {
        let r0 = reqs[0];
        match try_vote(p, r0.voter, r0.signed, r0.option_index, r0.now) {
            Ok(q) => {
                if r0.signed {
                    lemma_try_vote_step(p, r0.voter, r0.option_index, r0.now);
                }
                lemma_vote_tally(q, reqs.drop_first());
            },
            Err(_) => {
                lemma_vote_tally(p, reqs.drop_first());
            },
        }
    }
}

/// On a freshly created poll, the counts total exactly the number of
/// successful vote attempts, and every identity appears at most once in
/// the voter list, whatever the attempts were.
pub proof fn lemma_fresh_poll_tally(
    creator: Seq<u8>,
    question: Seq<u8>,
    options: Seq<Seq<u8>>,
    start_time: u64,
    end_time: u64,
    reqs: Seq<VoteAttempt>,
)
    ensures
        sum_counts(
            run_votes(created_poll(creator, question, options, start_time, end_time), reqs).vote_counts,
        ) == successful_votes(created_poll(creator, question, options, start_time, end_time), reqs),
        run_votes(
            created_poll(creator, question, options, start_time, end_time),
            reqs,
        ).voters.no_duplicates(),
{
    let p = created_poll(creator, question, options, start_time, end_time);
    lemma_create_initializes(creator, question, options, start_time, end_time);
    lemma_vote_tally(p, reqs);
}

/// Double-vote rejection: after one successful vote, a second attempt by
/// the same signer fails with `DuplicateVote`, at any time still inside the
/// window and whatever option it names.
pub proof fn lemma_double_vote_rejected(
    p: PollView,
    voter: Seq<u8>,
    idx1: u32,
    now1: u64,
    idx2: u32,
    now2: u64,
)
    requires
        try_vote(p, voter, true, idx1, now1) is Ok,
        p.start_time <= now2 <= p.end_time,
    ensures
        try_vote(try_vote(p, voter, true, idx1, now1)->Ok_0, voter, true, idx2, now2) == Err::<
            PollView,
            VoteError,
        >(VoteError::DuplicateVote),
{
    let q = try_vote(p, voter, true, idx1, now1)->Ok_0;
    assert(q.voters[p.voters.len() as int] == voter);
    assert(q.voters.contains(voter));
}

/// Window enforcement: a vote before the start or after the end of an open
/// poll fails with `OutsideVotingWindow`.
pub proof fn lemma_window_enforced(p: PollView, voter: Seq<u8>, idx: u32, now: u64)
    requires
        !p.is_closed,
        now < p.start_time || now > p.end_time,
    ensures
        try_vote(p, voter, true, idx, now) == Err::<PollView, VoteError>(
            VoteError::OutsideVotingWindow,
        ),
{
}

/// Close authorization and timing: a non-creator is turned away, a second
/// close is turned away, an early close is turned away, and the one
/// successful close marks the record closed with nothing else changed.
pub proof fn lemma_close_rules(p: PollView, caller: Seq<u8>, now: u64)
    ensures
        caller != p.creator ==> try_close(p, caller, true, now) == Err::<PollView, VoteError>(
            VoteError::NotAuthorized,
        ),
        caller == p.creator && p.is_closed ==> try_close(p, caller, true, now) == Err::<
            PollView,
            VoteError,
        >(VoteError::AlreadyClosed),
        caller == p.creator && !p.is_closed && now < p.end_time ==> try_close(p, caller, true, now)
            == Err::<PollView, VoteError>(VoteError::VotingStillActive),
        caller == p.creator && !p.is_closed && now >= p.end_time ==> {
            &&& try_close(p, caller, true, now) is Ok
            &&& try_close(p, caller, true, now)->Ok_0 == (PollView { is_closed: true, ..p })
        },
{
}

/// Post-close immutability: a closed record turns every vote away with
/// `PollClosed`, whatever the time, and every further close away with
/// `AlreadyClosed` — no transition leads out of the closed state.
pub proof fn lemma_closed_is_terminal(
    p: PollView,
    voter: Seq<u8>,
    idx: u32,
    caller: Seq<u8>,
    now: u64,
)
    requires
        p.is_closed,
    ensures
        try_vote(p, voter, true, idx, now) == Err::<PollView, VoteError>(VoteError::PollClosed),
        try_close(p, caller, true, now) is Err,
{
}

/// Overflow safety: a vote for an option whose counter stands at the
/// maximum fails with `CounterOverflow`; since it fails, the handler
/// commits no mutation at all.
pub proof fn lemma_counter_overflow(p: PollView, voter: Seq<u8>, idx: u32, now: u64)
    requires
        !p.is_closed,
        p.start_time <= now <= p.end_time,
        !p.voters.contains(voter),
        (idx as int) < p.options.len(),
        p.vote_counts[idx as int] == u64::MAX,
    ensures
        try_vote(p, voter, true, idx, now) == Err::<PollView, VoteError>(VoteError::CounterOverflow),
{
}

/// The views of each element of a sequence of byte vectors.
pub open spec fn views_of(v: Seq<Vec<u8>>) -> Seq<Seq<u8>> {
    Seq::new(v.len(), |i: int| v[i]@)
}

impl View for Poll {
    type V = PollView;

    open spec fn view(&self) -> PollView {
        PollView {
            creator: self.creator@,
            question: self.question@,
            options: views_of(self.options@),
            vote_counts: self.vote_counts@,
            start_time: self.start_time,
            end_time: self.end_time,
            is_closed: self.is_closed,
            voters: views_of(self.voters@),
        }
    }
}

} // verus!
