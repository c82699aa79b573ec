//! The instructions the voting module accepts, and their mathematical view.

use vstd::prelude::*;
use crate::poll::views_of;

verus! {

/// Instructions the voting module accepts.
///
/// Each instruction is carried as an opaque byte buffer; `codec` defines the
/// tag-discriminated wire format.
#[derive(Debug)]
pub enum VotingInstruction {
    /// Create a new poll.
    /// Accounts: poll account (writable), poll creator (signer).
    CreatePoll { question: Vec<u8>, options: Vec<Vec<u8>>, start_time: u64, end_time: u64 },
    /// Vote on a poll option.
    /// Accounts: poll account (writable), voter (signer).
    Vote { option_index: u32 },
    /// Close a poll.
    /// Accounts: poll account (writable), caller (signer, must be the creator).
    ClosePoll,
}

/// The mathematical model of an instruction.
#[verifier::ext_equal]
pub enum InstructionView {
    CreatePoll { question: Seq<u8>, options: Seq<Seq<u8>>, start_time: u64, end_time: u64 },
    Vote { option_index: u32 },
    ClosePoll,
}

impl InstructionView {
    /// The instruction can be carried by the wire format: every length
    /// fits its 32-bit prefix.
    pub open spec fn wf(self) -> bool {
        match self {
            InstructionView::CreatePoll { question, options, .. } => {
                &&& question.len() <= u32::MAX
                &&& options.len() <= u32::MAX
                &&& forall|i: int| 0 <= i < options.len() ==> (#[trigger] options[i]).len() <= u32::MAX
            },
            InstructionView::Vote { .. } => true,
            InstructionView::ClosePoll => true,
        }
    }
}

impl View for VotingInstruction {
    type V = InstructionView;

    open spec fn view(&self) -> InstructionView {
        match self {
            VotingInstruction::CreatePoll { question, options, start_time, end_time } => {
                InstructionView::CreatePoll {
                    question: question@,
                    options: views_of(options@),
                    start_time: *start_time,
                    end_time: *end_time,
                }
            },
            VotingInstruction::Vote { option_index } => {
                InstructionView::Vote { option_index: *option_index }
            },
            VotingInstruction::ClosePoll => InstructionView::ClosePoll,
        }
    }
}

} // verus!
