//! An on-chain voting module: a persisted poll record and three state
//! transitions (create, vote, close) over host-supplied account buffers.

pub mod codec;
pub mod instruction;
pub mod poll;
pub mod processor;

pub use codec::{decode_instruction, decode_poll, encode_instruction, encode_poll};
pub use instruction::VotingInstruction;
pub use poll::{Poll, VoteError};
pub use processor::{
    get_current_time, process_close_poll, process_create_poll, process_instruction, process_vote,
    Account,
};
