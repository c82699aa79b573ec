//! The wire format: a deterministic, versionless, length-prefixed encoding
//! of poll records and instructions (integers little-endian, sequences and
//! text prefixed by a 32-bit element count), and its verified decoder.

use vstd::prelude::*;
use vstd::slice::{slice_subrange, slice_to_vec};
use crate::poll::{Poll, PollView, VoteError, views_of, KEY_LEN};
use crate::instruction::{InstructionView, VotingInstruction};

verus! {

/// Wire tag of the create-poll instruction.
pub const TAG_CREATE: u8 = 0;

/// Wire tag of the vote instruction.
pub const TAG_VOTE: u8 = 1;

/// Wire tag of the close-poll instruction.
pub const TAG_CLOSE: u8 = 2;

/// The little-endian bytes of a 32-bit integer.
pub open spec fn enc_u32(v: u32) -> Seq<u8> {
    seq![
        (v & 0xff) as u8,
        ((v >> 8) & 0xff) as u8,
        ((v >> 16) & 0xff) as u8,
        ((v >> 24) & 0xff) as u8,
    ]
}

/// The little-endian bytes of a 64-bit integer.
pub open spec fn enc_u64(v: u64) -> Seq<u8> {
    seq![
        (v & 0xff) as u8,
        ((v >> 8) & 0xff) as u8,
        ((v >> 16) & 0xff) as u8,
        ((v >> 24) & 0xff) as u8,
        ((v >> 32) & 0xff) as u8,
        ((v >> 40) & 0xff) as u8,
        ((v >> 48) & 0xff) as u8,
        ((v >> 56) & 0xff) as u8,
    ]
}

/// The 32-bit integer read from four little-endian bytes.
pub open spec fn u32_of_le(b0: u8, b1: u8, b2: u8, b3: u8) -> u32 {
    (b0 as u32) | ((b1 as u32) << 8) | ((b2 as u32) << 16) | ((b3 as u32) << 24)
}

/// The 64-bit integer read from eight little-endian bytes.
pub open spec fn u64_of_le(b0: u8, b1: u8, b2: u8, b3: u8, b4: u8, b5: u8, b6: u8, b7: u8) -> u64 {
    (b0 as u64) | ((b1 as u64) << 8) | ((b2 as u64) << 16) | ((b3 as u64) << 24)
        | ((b4 as u64) << 32) | ((b5 as u64) << 40) | ((b6 as u64) << 48) | ((b7 as u64) << 56)
}

/// Reading back the four little-endian bytes of `v` yields `v`.
pub proof fn lemma_u32_le_round_trip(v: u32)
    ensures
        u32_of_le(
            (v & 0xff) as u8,
            ((v >> 8) & 0xff) as u8,
            ((v >> 16) & 0xff) as u8,
            ((v >> 24) & 0xff) as u8,
        ) == v,
{
    assert(((v & 0xff) as u8 as u32) | ((((v >> 8) & 0xff) as u8 as u32) << 8)
        | ((((v >> 16) & 0xff) as u8 as u32) << 16) | ((((v >> 24) & 0xff) as u8 as u32) << 24)
        == v) by (bit_vector);
}

/// Reading back the eight little-endian bytes of `v` yields `v`.
pub proof fn lemma_u64_le_round_trip(v: u64)
    ensures
        u64_of_le(
            (v & 0xff) as u8,
            ((v >> 8) & 0xff) as u8,
            ((v >> 16) & 0xff) as u8,
            ((v >> 24) & 0xff) as u8,
            ((v >> 32) & 0xff) as u8,
            ((v >> 40) & 0xff) as u8,
            ((v >> 48) & 0xff) as u8,
            ((v >> 56) & 0xff) as u8,
        ) == v,
{
    assert(((v & 0xff) as u8 as u64) | ((((v >> 8) & 0xff) as u8 as u64) << 8)
        | ((((v >> 16) & 0xff) as u8 as u64) << 16) | ((((v >> 24) & 0xff) as u8 as u64) << 24)
        | ((((v >> 32) & 0xff) as u8 as u64) << 32) | ((((v >> 40) & 0xff) as u8 as u64) << 40)
        | ((((v >> 48) & 0xff) as u8 as u64) << 48) | ((((v >> 56) & 0xff) as u8 as u64) << 56)
        == v) by (bit_vector);
}

/// Appends the little-endian bytes of `v` to `out`.
pub fn write_u32(out: &mut Vec<u8>, v: u32)
    ensures
        final(out)@ == old(out)@ + enc_u32(v),
{
    out.push((v & 0xff) as u8);
    out.push(((v >> 8) & 0xff) as u8);
    out.push(((v >> 16) & 0xff) as u8);
    out.push(((v >> 24) & 0xff) as u8);
    assert(out@ =~= old(out)@ + enc_u32(v));
}

/// Appends the little-endian bytes of `v` to `out`.
pub fn write_u64(out: &mut Vec<u8>, v: u64)
    ensures
        final(out)@ == old(out)@ + enc_u64(v),
{
    out.push((v & 0xff) as u8);
    out.push(((v >> 8) & 0xff) as u8);
    out.push(((v >> 16) & 0xff) as u8);
    out.push(((v >> 24) & 0xff) as u8);
    out.push(((v >> 32) & 0xff) as u8);
    out.push(((v >> 40) & 0xff) as u8);
    out.push(((v >> 48) & 0xff) as u8);
    out.push(((v >> 56) & 0xff) as u8);
    assert(out@ =~= old(out)@ + enc_u64(v));
}

/// The single byte that encodes a boolean.
pub open spec fn enc_bool(b: bool) -> Seq<u8> {
    if b {
        seq![1u8]
    } else {
        seq![0u8]
    }
}

/// A byte string prefixed by its 32-bit length.
pub open spec fn enc_bytes(b: Seq<u8>) -> Seq<u8> {
    enc_u32(b.len() as u32) + b
}

/// The concatenated encodings of a list of length-prefixed byte strings.
pub open spec fn enc_bytes_list(v: Seq<Seq<u8>>) -> Seq<u8>
    decreases v.len(),
{
    if v.len() == 0 {
        Seq::empty()
    } else {
        enc_bytes(v[0]) + enc_bytes_list(v.drop_first())
    }
}

/// The concatenated little-endian encodings of a list of 64-bit integers.
pub open spec fn enc_u64_list(v: Seq<u64>) -> Seq<u8>
    decreases v.len(),
{
    if v.len() == 0 {
        Seq::empty()
    } else {
        enc_u64(v[0]) + enc_u64_list(v.drop_first())
    }
}

/// The concatenated raw bytes of a list of fixed-size identities.
pub open spec fn enc_key_list(v: Seq<Seq<u8>>) -> Seq<u8>
    decreases v.len(),
{
    if v.len() == 0 {
        Seq::empty()
    } else {
        v[0] + enc_key_list(v.drop_first())
    }
}

/// The encoding of a poll record: creator identity, length-prefixed
/// question, options, vote counts, start and end time, closed flag, voters.
pub open spec fn enc_poll(p: PollView) -> Seq<u8> {
    p.creator + enc_bytes(p.question) + enc_u32(p.options.len() as u32) + enc_bytes_list(p.options)
        + enc_u32(p.vote_counts.len() as u32) + enc_u64_list(p.vote_counts)
        + enc_u64(p.start_time) + enc_u64(p.end_time) + enc_bool(p.is_closed)
        + enc_u32(p.voters.len() as u32) + enc_key_list(p.voters)
}

/// The encoding of an instruction: a tag byte followed by the payload.
pub open spec fn enc_instruction(v: InstructionView) -> Seq<u8> {
    match v {
        InstructionView::CreatePoll { question, options, start_time, end_time } => {
            seq![TAG_CREATE] + enc_bytes(question) + enc_u32(options.len() as u32)
                + enc_bytes_list(options) + enc_u64(start_time) + enc_u64(end_time)
        },
        InstructionView::Vote { option_index } => seq![TAG_VOTE] + enc_u32(option_index),
        InstructionView::ClosePoll => seq![TAG_CLOSE],
    }
}

/// Reads a 32-bit integer at position `i`; yields the value and the position
/// after it.
pub open spec fn parse_u32_at(s: Seq<u8>, i: int) -> Option<(u32, int)> {
    if 0 <= i && i + 4 <= s.len() {
        Some((u32_of_le(s[i], s[i + 1], s[i + 2], s[i + 3]), i + 4))
    } else {
        None
    }
}

/// Reads a 64-bit integer at position `i`.
pub open spec fn parse_u64_at(s: Seq<u8>, i: int) -> Option<(u64, int)> {
    if 0 <= i && i + 8 <= s.len() {
        Some(
            (
                u64_of_le(s[i], s[i + 1], s[i + 2], s[i + 3], s[i + 4], s[i + 5], s[i + 6], s[i + 7]),
                i + 8,
            ),
        )
    } else {
        None
    }
}

/// Reads a boolean at position `i`; any byte other than 0 or 1 is invalid.
pub open spec fn parse_bool_at(s: Seq<u8>, i: int) -> Option<(bool, int)> {
    if 0 <= i && i + 1 <= s.len() {
        if s[i] == 0 {
            Some((false, i + 1))
        } else if s[i] == 1 {
            Some((true, i + 1))
        } else {
            None
        }
    } else {
        None
    }
}

/// Reads a fixed-size identity at position `i`.
pub open spec fn parse_key_at(s: Seq<u8>, i: int) -> Option<(Seq<u8>, int)> {
    if 0 <= i && i + KEY_LEN <= s.len() {
        Some((s.subrange(i, i + KEY_LEN), i + KEY_LEN))
    } else {
        None
    }
}

/// Reads a length-prefixed byte string at position `i`.
pub open spec fn parse_bytes_at(s: Seq<u8>, i: int) -> Option<(Seq<u8>, int)> {
    match parse_u32_at(s, i) {
        Some((n, j)) => if j + n <= s.len() {
            Some((s.subrange(j, j + n), j + n))
        } else {
            None
        },
        None => None,
    }
}

/// Reads `count` length-prefixed byte strings at position `i`.
pub open spec fn parse_bytes_list_at(s: Seq<u8>, i: int, count: nat) -> Option<(Seq<Seq<u8>>, int)>
    decreases count,
{
    if count == 0 {
        Some((Seq::empty(), i))
    } else {
        match parse_bytes_at(s, i) {
            Some((b, j)) => match parse_bytes_list_at(s, j, (count - 1) as nat) {
                Some((rest, k)) => Some((seq![b] + rest, k)),
                None => None,
            },
            None => None,
        }
    }
}

/// Reads `count` 64-bit integers at position `i`.
pub open spec fn parse_u64_list_at(s: Seq<u8>, i: int, count: nat) -> Option<(Seq<u64>, int)>
    decreases count,
{
    if count == 0 {
        Some((Seq::empty(), i))
    } else {
        match parse_u64_at(s, i) {
            Some((b, j)) => match parse_u64_list_at(s, j, (count - 1) as nat) {
                Some((rest, k)) => Some((seq![b] + rest, k)),
                None => None,
            },
            None => None,
        }
    }
}

/// Reads `count` fixed-size identities at position `i`.
pub open spec fn parse_key_list_at(s: Seq<u8>, i: int, count: nat) -> Option<(Seq<Seq<u8>>, int)>
    decreases count,
{
    if count == 0 {
        Some((Seq::empty(), i))
    } else {
        match parse_key_at(s, i) {
            Some((b, j)) => match parse_key_list_at(s, j, (count - 1) as nat) {
                Some((rest, k)) => Some((seq![b] + rest, k)),
                None => None,
            },
            None => None,
        }
    }
}

/// Reads a whole poll record from the front of `s`; bytes past the record
/// are host-allocated slack and are ignored.
pub open spec fn parse_poll(s: Seq<u8>) -> Option<PollView> {
    match parse_key_at(s, 0) {
        None => None,
        Some((creator, i1)) => match parse_bytes_at(s, i1) {
            None => None,
            Some((question, i2)) => match parse_u32_at(s, i2) {
                None => None,
                Some((n_options, i3)) => match parse_bytes_list_at(s, i3, n_options as nat) {
                    None => None,
                    Some((options, i4)) => match parse_u32_at(s, i4) {
                        None => None,
                        Some((n_counts, i5)) => match parse_u64_list_at(s, i5, n_counts as nat) {
                            None => None,
                            Some((vote_counts, i6)) => match parse_u64_at(s, i6) {
                                None => None,
                                Some((start_time, i7)) => match parse_u64_at(s, i7) {
                                    None => None,
                                    Some((end_time, i8)) => match parse_bool_at(s, i8) {
                                        None => None,
                                        Some((is_closed, i9)) => match parse_u32_at(s, i9) {
                                            None => None,
                                            Some((n_voters, i10)) => match parse_key_list_at(
                                                s,
                                                i10,
                                                n_voters as nat,
                                            ) {
                                                None => None,
                                                Some((voters, _)) => Some(
                                                    PollView {
                                                        creator,
                                                        question,
                                                        options,
                                                        vote_counts,
                                                        start_time,
                                                        end_time,
                                                        is_closed,
                                                        voters,
                                                    },
                                                ),
                                            },
                                        },
                                    },
                                },
                            },
                        },
                    },
                },
            },
        },
    }
}

/// A poll record decodes only if it is structurally sound and its vote
/// counts run parallel to its options.
pub open spec fn spec_decode_poll(s: Seq<u8>) -> Option<PollView> {
    match parse_poll(s) {
        Some(p) => if p.vote_counts.len() == p.options.len() {
            Some(p)
        } else {
            None
        },
        None => None,
    }
}

/// Reads an instruction from the front of `s`; bytes past the payload are
/// ignored.
pub open spec fn parse_instruction(s: Seq<u8>) -> Option<InstructionView> {
    if s.len() < 1 {
        None
    } else if s[0] == TAG_CREATE {
        match parse_bytes_at(s, 1) {
            None => None,
            Some((question, i1)) => match parse_u32_at(s, i1) {
                None => None,
                Some((n_options, i2)) => match parse_bytes_list_at(s, i2, n_options as nat) {
                    None => None,
                    Some((options, i3)) => match parse_u64_at(s, i3) {
                        None => None,
                        Some((start_time, i4)) => match parse_u64_at(s, i4) {
                            None => None,
                            Some((end_time, _)) => Some(
                                InstructionView::CreatePoll { question, options, start_time, end_time },
                            ),
                        },
                    },
                },
            },
        }
    } else if s[0] == TAG_VOTE {
        match parse_u32_at(s, 1) {
            None => None,
            Some((option_index, _)) => Some(InstructionView::Vote { option_index }),
        }
    } else if s[0] == TAG_CLOSE {
        Some(InstructionView::ClosePoll)
    } else {
        None
    }
}

/// A subrange covering two adjacent pieces is the concatenation of the
/// subranges covering each piece.
proof fn lemma_subrange_focus(s: Seq<u8>, i: int, l1: int, l2: int)
    requires
        0 <= i,
        0 <= l1,
        0 <= l2,
        i + l1 + l2 <= s.len(),
    ensures
        s.subrange(i, i + l1 + l2) == s.subrange(i, i + l1) + s.subrange(i + l1, i + l1 + l2),
{
    assert(s.subrange(i, i + l1 + l2) =~= s.subrange(i, i + l1) + s.subrange(i + l1, i + l1 + l2));
}

/// Equal concatenations with equally long first parts have equal parts.
proof fn lemma_concat_parts(a: Seq<u8>, b: Seq<u8>, c: Seq<u8>, d: Seq<u8>)
    requires
        a.len() == c.len(),
        a + b == c + d,
    ensures
        a == c,
        b == d,
{
    assert((a + b).len() == a.len() + b.len());
    assert((c + d).len() == c.len() + d.len());
    assert(b.len() == d.len());
    assert forall|j: int| 0 <= j < a.len() implies a[j] == c[j] by {
        assert((a + b)[j] == a[j]);
        assert((c + d)[j] == c[j]);
    }
    assert(a =~= c);
    assert forall|j: int| 0 <= j < b.len() implies b[j] == d[j] by {
        assert((a + b)[a.len() + j] == b[j]);
        assert((c + d)[c.len() + j] == d[j]);
    }
    assert(b =~= d);
}

/// A subrange known to hold `a + b` splits into a subrange holding `a` and
/// one holding `b`.
proof fn lemma_split_prefix(s: Seq<u8>, i: int, a: Seq<u8>, b: Seq<u8>)
    requires
        0 <= i,
        i + a.len() + b.len() <= s.len(),
        s.subrange(i, i + a.len() + b.len()) == a + b,
    ensures
        s.subrange(i, i + a.len()) == a,
        s.subrange(i + a.len(), i + a.len() + b.len()) == b,
{
    lemma_subrange_focus(s, i, a.len() as int, b.len() as int);
    lemma_concat_parts(
        s.subrange(i, i + a.len()),
        s.subrange(i + a.len(), i + a.len() + b.len()),
        a,
        b,
    );
}

/// Parsing at a position that holds the encoding of `v` yields `v`.
proof fn lemma_parse_u32_enc(s: Seq<u8>, i: int, v: u32)
    requires
        0 <= i,
        i + 4 <= s.len(),
        s.subrange(i, i + 4) == enc_u32(v),
    ensures
        parse_u32_at(s, i) == Some((v, i + 4)),
{
    assert(s[i] == enc_u32(v)[0] && s[i + 1] == enc_u32(v)[1] && s[i + 2] == enc_u32(v)[2] && s[i
        + 3] == enc_u32(v)[3]) by {
        assert(s.subrange(i, i + 4)[0] == s[i]);
        assert(s.subrange(i, i + 4)[1] == s[i + 1]);
        assert(s.subrange(i, i + 4)[2] == s[i + 2]);
        assert(s.subrange(i, i + 4)[3] == s[i + 3]);
    }
    lemma_u32_le_round_trip(v);
}

/// Parsing at a position that holds the encoding of `v` yields `v`.
proof fn lemma_parse_u64_enc(s: Seq<u8>, i: int, v: u64)
    requires
        0 <= i,
        i + 8 <= s.len(),
        s.subrange(i, i + 8) == enc_u64(v),
    ensures
        parse_u64_at(s, i) == Some((v, i + 8)),
{
    assert forall|j: int| 0 <= j < 8 implies s[i + j] == enc_u64(v)[j] by {
        assert(s.subrange(i, i + 8)[j] == s[i + j]);
    }
    assert(s[i] == enc_u64(v)[0] && s[i + 1] == enc_u64(v)[1] && s[i + 2] == enc_u64(v)[2] && s[i
        + 3] == enc_u64(v)[3] && s[i + 4] == enc_u64(v)[4] && s[i + 5] == enc_u64(v)[5] && s[i + 6]
        == enc_u64(v)[6] && s[i + 7] == enc_u64(v)[7]);
    lemma_u64_le_round_trip(v);
}

/// Parsing at a position that holds the encoding of `b` yields `b`.
proof fn lemma_parse_bool_enc(s: Seq<u8>, i: int, b: bool)
    requires
        0 <= i,
        i + 1 <= s.len(),
        s.subrange(i, i + 1) == enc_bool(b),
    ensures
        parse_bool_at(s, i) == Some((b, i + 1)),
{
    assert(s.subrange(i, i + 1)[0] == s[i]);
}

/// Parsing at a position that holds a 32-byte identity yields it.
proof fn lemma_parse_key_enc(s: Seq<u8>, i: int, k: Seq<u8>)
    requires
        0 <= i,
        k.len() == KEY_LEN,
        i + KEY_LEN <= s.len(),
        s.subrange(i, i + KEY_LEN) == k,
    ensures
        parse_key_at(s, i) == Some((k, i + KEY_LEN)),
{
}

/// Parsing at a position that holds the length-prefixed encoding of `b`
/// yields `b`.
proof fn lemma_parse_bytes_enc(s: Seq<u8>, i: int, b: Seq<u8>)
    requires
        0 <= i,
        b.len() <= u32::MAX,
        i + enc_bytes(b).len() <= s.len(),
        s.subrange(i, i + enc_bytes(b).len()) == enc_bytes(b),
    ensures
        parse_bytes_at(s, i) == Some((b, i + enc_bytes(b).len())),
{
    let n = b.len() as u32;
    lemma_split_prefix(s, i, enc_u32(n), b);
    lemma_parse_u32_enc(s, i, n);
}

/// Parsing `v.len()` length-prefixed byte strings at a position that holds
/// their concatenated encodings yields `v`.
proof fn lemma_parse_bytes_list_enc(s: Seq<u8>, i: int, v: Seq<Seq<u8>>)
    requires
        0 <= i,
        forall|t: int| 0 <= t < v.len() ==> (#[trigger] v[t]).len() <= u32::MAX,
        i + enc_bytes_list(v).len() <= s.len(),
        s.subrange(i, i + enc_bytes_list(v).len()) == enc_bytes_list(v),
    ensures
        parse_bytes_list_at(s, i, v.len()) == Some((v, i + enc_bytes_list(v).len())),
    decreases v.len(),
{
    if v.len() == 0 {
        assert(v =~= Seq::<Seq<u8>>::empty());
    } else {
        let e0 = enc_bytes(v[0]);
        let rest = v.drop_first();
        lemma_split_prefix(s, i, e0, enc_bytes_list(rest));
        lemma_parse_bytes_enc(s, i, v[0]);
        let j = i + e0.len() as int;
        lemma_parse_bytes_list_enc(s, j, rest);
        assert(seq![v[0]] + rest =~= v);
    }
}

/// Parsing `v.len()` 64-bit integers at a position that holds their
/// concatenated encodings yields `v`.
proof fn lemma_parse_u64_list_enc(s: Seq<u8>, i: int, v: Seq<u64>)
    requires
        0 <= i,
        i + enc_u64_list(v).len() <= s.len(),
        s.subrange(i, i + enc_u64_list(v).len()) == enc_u64_list(v),
    ensures
        parse_u64_list_at(s, i, v.len()) == Some((v, i + enc_u64_list(v).len())),
    decreases v.len(),
{
    if v.len() == 0 {
        assert(v =~= Seq::<u64>::empty());
    } else {
        let rest = v.drop_first();
        lemma_split_prefix(s, i, enc_u64(v[0]), enc_u64_list(rest));
        lemma_parse_u64_enc(s, i, v[0]);
        lemma_parse_u64_list_enc(s, i + 8, rest);
        assert(seq![v[0]] + rest =~= v);
    }
}

/// Parsing `v.len()` identities at a position that holds their concatenated
/// raw bytes yields `v`.
proof fn lemma_parse_key_list_enc(s: Seq<u8>, i: int, v: Seq<Seq<u8>>)
    requires
        0 <= i,
        forall|t: int| 0 <= t < v.len() ==> (#[trigger] v[t]).len() == KEY_LEN,
        i + enc_key_list(v).len() <= s.len(),
        s.subrange(i, i + enc_key_list(v).len()) == enc_key_list(v),
    ensures
        parse_key_list_at(s, i, v.len()) == Some((v, i + enc_key_list(v).len())),
    decreases v.len(),
{
    if v.len() == 0 {
        assert(v =~= Seq::<Seq<u8>>::empty());
    } else {
        let rest = v.drop_first();
        lemma_split_prefix(s, i, v[0], enc_key_list(rest));
        lemma_parse_key_enc(s, i, v[0]);
        lemma_parse_key_list_enc(s, i + KEY_LEN as int, rest);
        assert(seq![v[0]] + rest =~= v);
    }
}

/// Concatenation of sequences is associative.
proof fn lemma_add_assoc<T>(a: Seq<T>, b: Seq<T>, c: Seq<T>)
    ensures
        (a + b) + c == a + (b + c),
{
    assert((a + b) + c =~= a + (b + c));
}

/// The record encoding, re-bracketed so that each field heads its tail.
pub open spec fn enc_poll_nested(p: PollView) -> Seq<u8> {
    p.creator + (enc_bytes(p.question) + (enc_u32(p.options.len() as u32) + (enc_bytes_list(
        p.options,
    ) + (enc_u32(p.vote_counts.len() as u32) + (enc_u64_list(p.vote_counts) + (enc_u64(
        p.start_time,
    ) + (enc_u64(p.end_time) + (enc_bool(p.is_closed) + (enc_u32(p.voters.len() as u32)
        + enc_key_list(p.voters))))))))))
}

/// The two bracketings of the record encoding are the same bytes.
proof fn lemma_enc_poll_nested(p: PollView)
    ensures
        enc_poll(p) == enc_poll_nested(p),
{
    let e0 = p.creator;
    let e1 = enc_bytes(p.question);
    let e2 = enc_u32(p.options.len() as u32);
    let e3 = enc_bytes_list(p.options);
    let e4 = enc_u32(p.vote_counts.len() as u32);
    let e5 = enc_u64_list(p.vote_counts);
    let e6 = enc_u64(p.start_time);
    let e7 = enc_u64(p.end_time);
    let e8 = enc_bool(p.is_closed);
    let e9 = enc_u32(p.voters.len() as u32);
    let e10 = enc_key_list(p.voters);
    let t10 = e10;
    let t9 = e9 + t10;
    let t8 = e8 + t9;
    let t7 = e7 + t8;
    let t6 = e6 + t7;
    let t5 = e5 + t6;
    let t4 = e4 + t5;
    let t3 = e3 + t4;
    let t2 = e2 + t3;
    let t1 = e1 + t2;
    let u1 = e0 + e1;
    let u2 = u1 + e2;
    let u3 = u2 + e3;
    let u4 = u3 + e4;
    let u5 = u4 + e5;
    let u6 = u5 + e6;
    let u7 = u6 + e7;
    let u8 = u7 + e8;
    let u9 = u8 + e9;
    assert(enc_poll(p) == u9 + e10);
    lemma_add_assoc(u8, e9, t10);
    lemma_add_assoc(u7, e8, t9);
    lemma_add_assoc(u6, e7, t8);
    lemma_add_assoc(u5, e6, t7);
    lemma_add_assoc(u4, e5, t6);
    lemma_add_assoc(u3, e4, t5);
    lemma_add_assoc(u2, e3, t4);
    lemma_add_assoc(u1, e2, t3);
    lemma_add_assoc(e0, e1, t2);
}

/// A concatenation starts with its first part.
proof fn lemma_prefix_subrange(a: Seq<u8>, b: Seq<u8>)
    ensures
        (a + b).subrange(0, a.len() as int) == a,
{
    assert((a + b).subrange(0, a.len() as int) =~= a);
}

/// A record whose fields parse in order, each from where the previous one
/// ended, parses as a whole.
proof fn lemma_parse_poll_compose(
    s: Seq<u8>,
    p: PollView,
    o1: int,
    o2: int,
    o3: int,
    o4: int,
    o5: int,
    o6: int,
    o7: int,
    o8: int,
    o9: int,
    o10: int,
)
    requires
        p.options.len() <= u32::MAX,
        p.vote_counts.len() <= u32::MAX,
        p.voters.len() <= u32::MAX,
        parse_key_at(s, 0) == Some((p.creator, o1)),
        parse_bytes_at(s, o1) == Some((p.question, o2)),
        parse_u32_at(s, o2) == Some((p.options.len() as u32, o3)),
        parse_bytes_list_at(s, o3, p.options.len()) == Some((p.options, o4)),
        parse_u32_at(s, o4) == Some((p.vote_counts.len() as u32, o5)),
        parse_u64_list_at(s, o5, p.vote_counts.len()) == Some((p.vote_counts, o6)),
        parse_u64_at(s, o6) == Some((p.start_time, o7)),
        parse_u64_at(s, o7) == Some((p.end_time, o8)),
        parse_bool_at(s, o8) == Some((p.is_closed, o9)),
        parse_u32_at(s, o9) == Some((p.voters.len() as u32, o10)),
        parse_key_list_at(s, o10, p.voters.len()) is Some,
        parse_key_list_at(s, o10, p.voters.len())->Some_0.0 == p.voters,
    ensures
        parse_poll(s) == Some(p),
{
    assert((p.options.len() as u32) as nat == p.options.len());
    assert((p.vote_counts.len() as u32) as nat == p.vote_counts.len());
    assert((p.voters.len() as u32) as nat == p.voters.len());
    let q = parse_poll(s)->Some_0;
    assert(q =~= p);
}

/// Round trip for records: a well-formed record reads back from the front
/// of its encoding, whatever slack the host buffer carries after it.
#[verifier::rlimit(100)]
#[verifier::spinoff_prover]
pub proof fn lemma_parse_poll_enc(p: PollView, slack: Seq<u8>)
    requires
        p.wf(),
    ensures
        parse_poll(enc_poll(p) + slack) == Some(p),
{
    let s = enc_poll(p) + slack;
    let e0 = p.creator;
    let e1 = enc_bytes(p.question);
    let e2 = enc_u32(p.options.len() as u32);
    let e3 = enc_bytes_list(p.options);
    let e4 = enc_u32(p.vote_counts.len() as u32);
    let e5 = enc_u64_list(p.vote_counts);
    let e6 = enc_u64(p.start_time);
    let e7 = enc_u64(p.end_time);
    let e8 = enc_bool(p.is_closed);
    let e9 = enc_u32(p.voters.len() as u32);
    let e10 = enc_key_list(p.voters);
    let t10 = e10;
    let t9 = e9 + t10;
    let t8 = e8 + t9;
    let t7 = e7 + t8;
    let t6 = e6 + t7;
    let t5 = e5 + t6;
    let t4 = e4 + t5;
    let t3 = e3 + t4;
    let t2 = e2 + t3;
    let t1 = e1 + t2;
    let t0 = e0 + t1;
    lemma_enc_poll_nested(p);
    assert(enc_poll(p) == t0);
    let n = t0.len() as int;
    lemma_prefix_subrange(t0, slack);
    assert(s.subrange(0, n) == t0);
    let o1 = e0.len() as int;
    let o2 = o1 + e1.len();
    let o3 = o2 + e2.len();
    let o4 = o3 + e3.len();
    let o5 = o4 + e4.len();
    let o6 = o5 + e5.len();
    let o7 = o6 + e6.len();
    let o8 = o7 + e7.len();
    let o9 = o8 + e8.len();
    let o10 = o9 + e9.len();
    lemma_split_prefix(s, 0, e0, t1);
    lemma_split_prefix(s, o1, e1, t2);
    lemma_split_prefix(s, o2, e2, t3);
    lemma_split_prefix(s, o3, e3, t4);
    lemma_split_prefix(s, o4, e4, t5);
    lemma_split_prefix(s, o5, e5, t6);
    lemma_split_prefix(s, o6, e6, t7);
    lemma_split_prefix(s, o7, e7, t8);
    lemma_split_prefix(s, o8, e8, t9);
    lemma_split_prefix(s, o9, e9, t10);
    lemma_parse_key_enc(s, 0, e0);
    lemma_parse_bytes_enc(s, o1, p.question);
    lemma_parse_u32_enc(s, o2, p.options.len() as u32);
    lemma_parse_bytes_list_enc(s, o3, p.options);
    lemma_parse_u32_enc(s, o4, p.vote_counts.len() as u32);
    lemma_parse_u64_list_enc(s, o5, p.vote_counts);
    lemma_parse_u64_enc(s, o6, p.start_time);
    lemma_parse_u64_enc(s, o7, p.end_time);
    lemma_parse_bool_enc(s, o8, p.is_closed);
    lemma_parse_u32_enc(s, o9, p.voters.len() as u32);
    lemma_parse_key_list_enc(s, o10, p.voters);
    lemma_parse_poll_compose(s, p, o1, o2, o3, o4, o5, o6, o7, o8, o9, o10);
}

/// Round trip for valid records: decoding the encoding of any valid record
/// yields that record, whatever slack follows it.
pub proof fn lemma_poll_round_trip(p: PollView, slack: Seq<u8>)
    requires
        p.valid(),
    ensures
        spec_decode_poll(enc_poll(p) + slack) == Some(p),
{
    lemma_parse_poll_enc(p, slack);
}

#[verifier::rlimit(100)]
/// A create instruction whose fields parse in order, each from where the
/// previous one ended, parses as a whole.
proof fn lemma_parse_create_compose(
    s: Seq<u8>,
    question: Seq<u8>,
    options: Seq<Seq<u8>>,
    start_time: u64,
    end_time: u64,
    o2: int,
    o3: int,
    o4: int,
    o5: int,
)
    requires
        options.len() <= u32::MAX,
        s.len() >= 1,
        s[0] == TAG_CREATE,
        parse_bytes_at(s, 1) == Some((question, o2)),
        parse_u32_at(s, o2) == Some((options.len() as u32, o3)),
        parse_bytes_list_at(s, o3, options.len()) == Some((options, o4)),
        parse_u64_at(s, o4) == Some((start_time, o5)),
        parse_u64_at(s, o5) is Some,
        parse_u64_at(s, o5)->Some_0.0 == end_time,
    ensures
        parse_instruction(s) == Some(
            InstructionView::CreatePoll { question, options, start_time, end_time },
        ),
{
    assert((options.len() as u32) as nat == options.len());
}

/// The create-instruction encoding, re-bracketed so that each field heads
/// its tail.
proof fn lemma_enc_create_nested(
    question: Seq<u8>,
    options: Seq<Seq<u8>>,
    start_time: u64,
    end_time: u64,
)
    ensures
        enc_instruction((InstructionView::CreatePoll { question, options, start_time, end_time }))
            == seq![TAG_CREATE] + (enc_bytes(question) + (enc_u32(options.len() as u32)
            + (enc_bytes_list(options) + (enc_u64(start_time) + enc_u64(end_time))))),
{
    let v = InstructionView::CreatePoll { question, options, start_time, end_time };
    let e0 = seq![TAG_CREATE];
    let e1 = enc_bytes(question);
    let e2 = enc_u32(options.len() as u32);
    let e3 = enc_bytes_list(options);
    let e4 = enc_u64(start_time);
    let e5 = enc_u64(end_time);
    let t5 = e5;
    let t4 = e4 + t5;
    let t3 = e3 + t4;
    let t2 = e2 + t3;
    let t1 = e1 + t2;
    let u1 = e0 + e1;
    let u2 = u1 + e2;
    let u3 = u2 + e3;
    let u4 = u3 + e4;
    assert(enc_instruction(v) == u4 + e5);
    lemma_add_assoc(u3, e4, t5);
    lemma_add_assoc(u2, e3, t4);
    lemma_add_assoc(u1, e2, t3);
    lemma_add_assoc(e0, e1, t2);
}

/// Round trip for a create instruction.
#[verifier::rlimit(100)]
#[verifier::spinoff_prover]
proof fn lemma_create_round_trip(
    question: Seq<u8>,
    options: Seq<Seq<u8>>,
    start_time: u64,
    end_time: u64,
    slack: Seq<u8>,
)
    requires
        (InstructionView::CreatePoll { question, options, start_time, end_time }).wf(),
    ensures
        parse_instruction(
            enc_instruction((InstructionView::CreatePoll { question, options, start_time, end_time }))
                + slack,
        ) == Some((InstructionView::CreatePoll { question, options, start_time, end_time })),
{
    let v = InstructionView::CreatePoll { question, options, start_time, end_time };
    let s = enc_instruction(v) + slack;
    let e0 = seq![TAG_CREATE];
            let e1 = enc_bytes(question);
            let e2 = enc_u32(options.len() as u32);
            let e3 = enc_bytes_list(options);
            let e4 = enc_u64(start_time);
            let e5 = enc_u64(end_time);
            let t5 = e5;
            let t4 = e4 + t5;
            let t3 = e3 + t4;
            let t2 = e2 + t3;
            let t1 = e1 + t2;
            let t0 = e0 + t1;
            lemma_enc_create_nested(question, options, start_time, end_time);
            assert(enc_instruction(v) == t0);
            let n = t0.len() as int;
            lemma_prefix_subrange(t0, slack);
            assert(s.subrange(0, n) == t0);
            let o1 = 1int;
            let o2 = o1 + e1.len();
            let o3 = o2 + e2.len();
            let o4 = o3 + e3.len();
            let o5 = o4 + e4.len();
            lemma_split_prefix(s, 0, e0, t1);
            lemma_split_prefix(s, o1, e1, t2);
            lemma_split_prefix(s, o2, e2, t3);
            lemma_split_prefix(s, o3, e3, t4);
            lemma_split_prefix(s, o4, e4, t5);
            assert(s[0] == TAG_CREATE) by {
                assert(s.subrange(0, 1)[0] == s[0]);
            }
            lemma_parse_bytes_enc(s, o1, question);
            lemma_parse_u32_enc(s, o2, options.len() as u32);
            lemma_parse_bytes_list_enc(s, o3, options);
            lemma_parse_u64_enc(s, o4, start_time);
            lemma_parse_u64_enc(s, o5, end_time);
            lemma_parse_create_compose(s, question, options, start_time, end_time, o2, o3, o4, o5);
}

/// Round trip for instructions: a well-formed instruction reads back from
/// the front of its encoding, whatever trails it.
pub proof fn lemma_instruction_round_trip(v: InstructionView, slack: Seq<u8>)
    requires
        v.wf(),
    ensures
        parse_instruction(enc_instruction(v) + slack) == Some(v),
{
    let s = enc_instruction(v) + slack;
    match v {
        InstructionView::CreatePoll { question, options, start_time, end_time } => {
            lemma_create_round_trip(question, options, start_time, end_time, slack);
        },
        InstructionView::Vote { option_index } => {
            let e0 = seq![TAG_VOTE];
            let e1 = enc_u32(option_index);
            assert(enc_instruction(v) =~= e0 + e1);
            assert(s.subrange(0, 5) =~= e0 + e1);
            lemma_split_prefix(s, 0, e0, e1);
            assert(s[0] == TAG_VOTE) by {
                assert(s.subrange(0, 1)[0] == s[0]);
            }
            lemma_parse_u32_enc(s, 1, option_index);
        },
        InstructionView::ClosePoll => {
            assert(s[0] == TAG_CLOSE) by {
                assert((seq![TAG_CLOSE] + slack)[0] == seq![TAG_CLOSE][0]);
            }
        },
    }
}

/// Appending a byte string to a list appends its encoding.
proof fn lemma_enc_bytes_list_snoc(v: Seq<Seq<u8>>, x: Seq<u8>)
    ensures
        enc_bytes_list(v.push(x)) == enc_bytes_list(v) + enc_bytes(x),
    decreases v.len(),
{
    if v.len() == 0 {
        assert(v.push(x)[0] == x);
        assert(v.push(x).drop_first() =~= Seq::<Seq<u8>>::empty());
        assert(Seq::<u8>::empty() + enc_bytes_list(v.push(x).drop_first()) =~= Seq::<u8>::empty());
        assert(enc_bytes(x) + Seq::<u8>::empty() =~= enc_bytes(x));
        assert(Seq::<u8>::empty() + enc_bytes(x) =~= enc_bytes(x));
    } else {
        assert(v.push(x)[0] == v[0]);
        assert(v.push(x).drop_first() =~= v.drop_first().push(x));
        lemma_enc_bytes_list_snoc(v.drop_first(), x);
        lemma_add_assoc(enc_bytes(v[0]), enc_bytes_list(v.drop_first()), enc_bytes(x));
    }
}

/// Appending an integer to a list appends its encoding.
proof fn lemma_enc_u64_list_snoc(v: Seq<u64>, x: u64)
    ensures
        enc_u64_list(v.push(x)) == enc_u64_list(v) + enc_u64(x),
    decreases v.len(),
{
    if v.len() == 0 {
        assert(v.push(x)[0] == x);
        assert(v.push(x).drop_first() =~= Seq::<u64>::empty());
        assert(enc_u64(x) + enc_u64_list(v.push(x).drop_first()) =~= enc_u64(x));
        assert(Seq::<u8>::empty() + enc_u64(x) =~= enc_u64(x));
    } else {
        assert(v.push(x)[0] == v[0]);
        assert(v.push(x).drop_first() =~= v.drop_first().push(x));
        lemma_enc_u64_list_snoc(v.drop_first(), x);
        lemma_add_assoc(enc_u64(v[0]), enc_u64_list(v.drop_first()), enc_u64(x));
    }
}

/// Appending an identity to a list appends its raw bytes.
proof fn lemma_enc_key_list_snoc(v: Seq<Seq<u8>>, x: Seq<u8>)
    ensures
        enc_key_list(v.push(x)) == enc_key_list(v) + x,
    decreases v.len(),
{
    if v.len() == 0 {
        assert(v.push(x)[0] == x);
        assert(v.push(x).drop_first() =~= Seq::<Seq<u8>>::empty());
        assert(x + enc_key_list(v.push(x).drop_first()) =~= x);
        assert(Seq::<u8>::empty() + x =~= x);
    } else {
        assert(v.push(x)[0] == v[0]);
        assert(v.push(x).drop_first() =~= v.drop_first().push(x));
        lemma_enc_key_list_snoc(v.drop_first(), x);
        lemma_add_assoc(v[0], enc_key_list(v.drop_first()), x);
    }
}

/// Appends the bytes of `b` to `out`.
fn write_raw(out: &mut Vec<u8>, b: &Vec<u8>)
    ensures
        final(out)@ == old(out)@ + b@,
{
    let mut j: usize = 0;
    while j < b.len()
        invariant
            j <= b.len(),
            out@ == old(out)@ + b@.take(j as int),
        decreases b.len() - j,
    {
        out.push(b[j]);
        assert(b@.take(j + 1) =~= b@.take(j as int).push(b@[j as int]));
        assert(old(out)@ + b@.take(j + 1) =~= (old(out)@ + b@.take(j as int)).push(b@[j as int]));
        j = j + 1;
    }
    assert(b@.take(b@.len() as int) =~= b@);
    assert(out@ =~= old(out)@ + b@);
}

/// Appends the length-prefixed encoding of `b` to `out`.
fn write_bytes(out: &mut Vec<u8>, b: &Vec<u8>)
    requires
        b@.len() <= u32::MAX,
    ensures
        final(out)@ == old(out)@ + enc_bytes(b@),
{
    let n = b.len() as u32;
    write_u32(out, n);
    write_raw(out, b);
    proof {
        lemma_add_assoc(old(out)@, enc_u32(n), b@);
    }
}

/// Encodes a record into fresh bytes; `requires` asks only what the wire
/// format itself forces (lengths that fit their 32-bit prefixes).
pub fn encode_poll(p: &Poll) -> (r: Vec<u8>)
    requires
        p@.wf(),
    ensures
        r@ == enc_poll(p@),
{
    let ghost pv = p@;
    let mut out: Vec<u8> = Vec::new();
    write_raw(&mut out, &p.creator);
    assert(out@ =~= pv.creator);
    write_bytes(&mut out, &p.question);
    let n_options = p.options.len() as u32;
    write_u32(&mut out, n_options);
    let ghost before_options = out@;
    let mut k: usize = 0;
    while k < p.options.len()
        invariant
            k <= p.options@.len(),
            p@ == pv,
            pv.wf(),
            out@ == before_options + enc_bytes_list(pv.options.take(k as int)),
        decreases p.options@.len() - k,
    {
        assert(pv.options[k as int] == p.options@[k as int]@);
        assert(p.options@[k as int]@.len() <= u32::MAX);
        write_bytes(&mut out, &p.options[k]);
        proof {
            lemma_enc_bytes_list_snoc(pv.options.take(k as int), pv.options[k as int]);
            assert(pv.options.take(k + 1) =~= pv.options.take(k as int).push(pv.options[k as int]));
            lemma_add_assoc(
                before_options,
                enc_bytes_list(pv.options.take(k as int)),
                enc_bytes(pv.options[k as int]),
            );
        }
        k = k + 1;
    }
    assert(pv.options.take(pv.options.len() as int) =~= pv.options);
    let n_counts = p.vote_counts.len() as u32;
    write_u32(&mut out, n_counts);
    let ghost before_counts = out@;
    let mut k: usize = 0;
    while k < p.vote_counts.len()
        invariant
            k <= p.vote_counts@.len(),
            p@ == pv,
            pv.wf(),
            out@ == before_counts + enc_u64_list(pv.vote_counts.take(k as int)),
        decreases p.vote_counts@.len() - k,
    {
        write_u64(&mut out, p.vote_counts[k]);
        proof {
            lemma_enc_u64_list_snoc(pv.vote_counts.take(k as int), pv.vote_counts[k as int]);
            assert(pv.vote_counts.take(k + 1) =~= pv.vote_counts.take(k as int).push(
                pv.vote_counts[k as int],
            ));
            lemma_add_assoc(
                before_counts,
                enc_u64_list(pv.vote_counts.take(k as int)),
                enc_u64(pv.vote_counts[k as int]),
            );
        }
        k = k + 1;
    }
    assert(pv.vote_counts.take(pv.vote_counts.len() as int) =~= pv.vote_counts);
    write_u64(&mut out, p.start_time);
    write_u64(&mut out, p.end_time);
    if p.is_closed {
        out.push(1u8);
    } else {
        out.push(0u8);
    }
    assert(out@ =~= (before_counts + enc_u64_list(pv.vote_counts) + enc_u64(pv.start_time)
        + enc_u64(pv.end_time)) + enc_bool(pv.is_closed));
    let n_voters = p.voters.len() as u32;
    write_u32(&mut out, n_voters);
    let ghost before_voters = out@;
    let mut k: usize = 0;
    while k < p.voters.len()
        invariant
            k <= p.voters@.len(),
            p@ == pv,
            pv.wf(),
            out@ == before_voters + enc_key_list(pv.voters.take(k as int)),
        decreases p.voters@.len() - k,
    {
        assert(pv.voters[k as int] == p.voters@[k as int]@);
        write_raw(&mut out, &p.voters[k]);
        proof {
            lemma_enc_key_list_snoc(pv.voters.take(k as int), pv.voters[k as int]);
            assert(pv.voters.take(k + 1) =~= pv.voters.take(k as int).push(pv.voters[k as int]));
            lemma_add_assoc(
                before_voters,
                enc_key_list(pv.voters.take(k as int)),
                pv.voters[k as int],
            );
        }
        k = k + 1;
    }
    assert(pv.voters.take(pv.voters.len() as int) =~= pv.voters);
    assert(out@ =~= enc_poll(pv));
    out
}

/// Encodes an instruction into fresh bytes.
pub fn encode_instruction(v: &VotingInstruction) -> (r: Vec<u8>)
    requires
        v@.wf(),
    ensures
        r@ == enc_instruction(v@),
{
    let mut out: Vec<u8> = Vec::new();
    match v {
        VotingInstruction::CreatePoll { question, options, start_time, end_time } => {
            let ghost qv = question@;
            let ghost ov = views_of(options@);
            out.push(TAG_CREATE);
            assert(out@ =~= seq![TAG_CREATE]);
            write_bytes(&mut out, question);
            let n_options = options.len() as u32;
            write_u32(&mut out, n_options);
            let ghost before_options = out@;
            let mut k: usize = 0;
            while k < options.len()
                invariant
                    k <= options@.len(),
                    ov == views_of(options@),
                    forall|i: int| 0 <= i < ov.len() ==> (#[trigger] ov[i]).len() <= u32::MAX,
                    out@ == before_options + enc_bytes_list(ov.take(k as int)),
                decreases options@.len() - k,
            {
                assert(ov[k as int] == options@[k as int]@);
                write_bytes(&mut out, &options[k]);
                proof {
                    lemma_enc_bytes_list_snoc(ov.take(k as int), ov[k as int]);
                    assert(ov.take(k + 1) =~= ov.take(k as int).push(ov[k as int]));
                    lemma_add_assoc(
                        before_options,
                        enc_bytes_list(ov.take(k as int)),
                        enc_bytes(ov[k as int]),
                    );
                }
                k = k + 1;
            }
            assert(ov.take(ov.len() as int) =~= ov);
            write_u64(&mut out, *start_time);
            write_u64(&mut out, *end_time);
            assert(out@ =~= enc_instruction(v@));
        },
        VotingInstruction::Vote { option_index } => {
            out.push(TAG_VOTE);
            assert(out@ =~= seq![TAG_VOTE]);
            write_u32(&mut out, *option_index);
        },
        VotingInstruction::ClosePoll => {
            out.push(TAG_CLOSE);
            assert(out@ =~= seq![TAG_CLOSE]);
        },
    }
    out
}

/// A parsed list of byte strings occupies exactly the bytes its encoding
/// takes, and a non-empty one ends inside the buffer.
proof fn lemma_parse_bytes_list_len(s: Seq<u8>, i: int, count: nat)
    requires
        parse_bytes_list_at(s, i, count) is Some,
    ensures
        ({
            let (v, j) = parse_bytes_list_at(s, i, count)->Some_0;
            j == i + enc_bytes_list(v).len() && (count == 0 || j <= s.len())
        }),
    decreases count,
{
    if count == 0 {
    } else {
        let (b, j1) = parse_bytes_at(s, i)->Some_0;
        lemma_parse_bytes_list_len(s, j1, (count - 1) as nat);
        let (rest, _j) = parse_bytes_list_at(s, j1, (count - 1) as nat)->Some_0;
        assert((seq![b] + rest)[0] == b);
        assert((seq![b] + rest).drop_first() =~= rest);
    }
}

/// A parsed list of 64-bit integers occupies exactly the bytes its encoding
/// takes, and a non-empty one ends inside the buffer.
proof fn lemma_parse_u64_list_len(s: Seq<u8>, i: int, count: nat)
    requires
        parse_u64_list_at(s, i, count) is Some,
    ensures
        ({
            let (v, j) = parse_u64_list_at(s, i, count)->Some_0;
            j == i + enc_u64_list(v).len() && (count == 0 || j <= s.len())
        }),
    decreases count,
{
    if count == 0 {
    } else {
        let (b, j1) = parse_u64_at(s, i)->Some_0;
        lemma_parse_u64_list_len(s, j1, (count - 1) as nat);
        let (rest, _j) = parse_u64_list_at(s, j1, (count - 1) as nat)->Some_0;
        assert((seq![b] + rest)[0] == b);
        assert((seq![b] + rest).drop_first() =~= rest);
    }
}

/// A parsed list of identities occupies exactly the bytes its encoding
/// takes, and a non-empty one ends inside the buffer.
proof fn lemma_parse_key_list_len(s: Seq<u8>, i: int, count: nat)
    requires
        parse_key_list_at(s, i, count) is Some,
    ensures
        ({
            let (v, j) = parse_key_list_at(s, i, count)->Some_0;
            j == i + enc_key_list(v).len() && (count == 0 || j <= s.len())
        }),
    decreases count,
{
    if count == 0 {
    } else {
        let (b, j1) = parse_key_at(s, i)->Some_0;
        lemma_parse_key_list_len(s, j1, (count - 1) as nat);
        let (rest, _j) = parse_key_list_at(s, j1, (count - 1) as nat)->Some_0;
        assert((seq![b] + rest)[0] == b);
        assert((seq![b] + rest).drop_first() =~= rest);
    }
}

/// Reads a 32-bit integer at `i`, mirroring `parse_u32_at`.
fn read_u32_at(data: &[u8], i: usize) -> (r: Option<(u32, usize)>)
    ensures
        r is Some ==> parse_u32_at(data@, i as int) == Some(
            (r->Some_0.0, r->Some_0.1 as int),
        ),
        r is None ==> parse_u32_at(data@, i as int) is None,
{
    if data.len() >= 4 && i <= data.len() - 4 {
        let b0 = data[i];
        let b1 = data[i + 1];
        let b2 = data[i + 2];
        let b3 = data[i + 3];
        let v = (b0 as u32) | ((b1 as u32) << 8u32) | ((b2 as u32) << 16u32) | ((b3 as u32)
            << 24u32);
        Some((v, i + 4))
    } else {
        None
    }
}

/// Reads a 64-bit integer at `i`, mirroring `parse_u64_at`.
fn read_u64_at(data: &[u8], i: usize) -> (r: Option<(u64, usize)>)
    ensures
        r is Some ==> parse_u64_at(data@, i as int) == Some(
            (r->Some_0.0, r->Some_0.1 as int),
        ),
        r is None ==> parse_u64_at(data@, i as int) is None,
{
    if data.len() >= 8 && i <= data.len() - 8 {
        let b0 = data[i];
        let b1 = data[i + 1];
        let b2 = data[i + 2];
        let b3 = data[i + 3];
        let b4 = data[i + 4];
        let b5 = data[i + 5];
        let b6 = data[i + 6];
        let b7 = data[i + 7];
        let v = (b0 as u64) | ((b1 as u64) << 8u64) | ((b2 as u64) << 16u64) | ((b3 as u64)
            << 24u64) | ((b4 as u64) << 32u64) | ((b5 as u64) << 40u64) | ((b6 as u64) << 48u64)
            | ((b7 as u64) << 56u64);
        Some((v, i + 8))
    } else {
        None
    }
}

/// Reads a boolean at `i`, mirroring `parse_bool_at`.
fn read_bool_at(data: &[u8], i: usize) -> (r: Option<(bool, usize)>)
    ensures
        r is Some ==> parse_bool_at(data@, i as int) == Some(
            (r->Some_0.0, r->Some_0.1 as int),
        ),
        r is None ==> parse_bool_at(data@, i as int) is None,
{
    if i < data.len() {
        let b = data[i];
        if b == 0 {
            Some((false, i + 1))
        } else if b == 1 {
            Some((true, i + 1))
        } else {
            None
        }
    } else {
        None
    }
}

/// Reads a 32-byte identity at `i`, mirroring `parse_key_at`.
fn read_key_at(data: &[u8], i: usize) -> (r: Option<(Vec<u8>, usize)>)
    ensures
        r is Some ==> parse_key_at(data@, i as int) == Some(
            (r->Some_0.0@, r->Some_0.1 as int),
        ),
        r is None ==> parse_key_at(data@, i as int) is None,
{
    if data.len() >= KEY_LEN && i <= data.len() - KEY_LEN {
        let k = slice_to_vec(slice_subrange(data, i, i + KEY_LEN));
        Some((k, i + KEY_LEN))
    } else {
        None
    }
}

/// Reads a length-prefixed byte string at `i`, mirroring `parse_bytes_at`.
fn read_bytes_at(data: &[u8], i: usize) -> (r: Option<(Vec<u8>, usize)>)
    ensures
        r is Some ==> parse_bytes_at(data@, i as int) == Some(
            (r->Some_0.0@, r->Some_0.1 as int),
        ),
        r is Some ==> r->Some_0.0@.len() <= u32::MAX,
        r is None ==> parse_bytes_at(data@, i as int) is None,
{
    match read_u32_at(data, i) {
        Some((n, j)) => {
            let nn = n as usize;
            if data.len() - j >= nn {
                let b = slice_to_vec(slice_subrange(data, j, j + nn));
                Some((b, j + nn))
            } else {
                None
            }
        },
        None => None,
    }
}

/// Reads `count` length-prefixed byte strings at `start`, mirroring
/// `parse_bytes_list_at`.
fn read_bytes_list_at(data: &[u8], start: usize, count: u32) -> (r: Option<(Vec<Vec<u8>>, usize)>)
    ensures
        r is Some ==> parse_bytes_list_at(data@, start as int, count as nat) == Some(
            (views_of(r->Some_0.0@), r->Some_0.1 as int),
        ),
        r is Some ==> forall|t: int|
            0 <= t < r->Some_0.0@.len() ==> (#[trigger] r->Some_0.0@[t]@).len() <= u32::MAX,
        r is Some ==> r->Some_0.0@.len() == count,
        r is None ==> parse_bytes_list_at(data@, start as int, count as nat) is None,
{
    let mut acc: Vec<Vec<u8>> = Vec::new();
    let mut pos: usize = start;
    let mut k: u32 = 0;
    while k < count
        invariant
            k <= count,
            acc@.len() == k,
            forall|t: int| 0 <= t < acc@.len() ==> (#[trigger] acc@[t]@).len() <= u32::MAX,
            (match parse_bytes_list_at(data@, pos as int, (count - k) as nat) {
                Some((rest, end)) => parse_bytes_list_at(data@, start as int, count as nat)
                    == Some((views_of(acc@) + rest, end)),
                None => parse_bytes_list_at(data@, start as int, count as nat) is None,
            }),
        decreases count - k,
    {
        let ghost acc0 = acc@;
        let ghost pos0 = pos as int;
        match read_bytes_at(data, pos) {
            Some((b, j)) => {
                proof {
                    assert(parse_bytes_list_at(data@, pos0, (count - k) as nat) matches Some(
                        (rest, end),
                    ) ==> rest == seq![b@] + parse_bytes_list_at(
                        data@,
                        j as int,
                        (count - k - 1) as nat,
                    )->Some_0.0);
                }
                acc.push(b);
                pos = j;
                proof {
                    assert(views_of(acc@) =~= views_of(acc0).push(acc@[acc0.len() as int]@));
                    if parse_bytes_list_at(data@, pos as int, (count - k - 1) as nat) is Some {
                        let (rest2, end2) = parse_bytes_list_at(
                            data@,
                            pos as int,
                            (count - k - 1) as nat,
                        )->Some_0;
                        assert(parse_bytes_list_at(data@, pos0, (count - k) as nat) == Some(
                            (seq![acc@[acc0.len() as int]@] + rest2, end2),
                        ));
                        assert(views_of(acc0) + (seq![acc@[acc0.len() as int]@] + rest2)
                            =~= views_of(acc@) + rest2);
                    }
                }
            },
            None => {
                return None;
            },
        }
        k = k + 1;
    }
    proof {
        assert(parse_bytes_list_at(data@, pos as int, 0) == Some(
            (Seq::<Seq<u8>>::empty(), pos as int),
        ));
        assert(views_of(acc@) + Seq::<Seq<u8>>::empty() =~= views_of(acc@));
    }
    Some((acc, pos))
}

/// Reads `count` 64-bit integers at `start`, mirroring `parse_u64_list_at`.
fn read_u64_list_at(data: &[u8], start: usize, count: u32) -> (r: Option<(Vec<u64>, usize)>)
    ensures
        r is Some ==> parse_u64_list_at(data@, start as int, count as nat) == Some(
            (r->Some_0.0@, r->Some_0.1 as int),
        ),
        r is Some ==> r->Some_0.0@.len() == count,
        r is None ==> parse_u64_list_at(data@, start as int, count as nat) is None,
{
    let mut acc: Vec<u64> = Vec::new();
    let mut pos: usize = start;
    let mut k: u32 = 0;
    while k < count
        invariant
            k <= count,
            acc@.len() == k,
            (match parse_u64_list_at(data@, pos as int, (count - k) as nat) {
                Some((rest, end)) => parse_u64_list_at(data@, start as int, count as nat) == Some(
                    (acc@ + rest, end),
                ),
                None => parse_u64_list_at(data@, start as int, count as nat) is None,
            }),
        decreases count - k,
    {
        let ghost acc0 = acc@;
        let ghost pos0 = pos as int;
        match read_u64_at(data, pos) {
            Some((v, j)) => {
                acc.push(v);
                pos = j;
                proof {
                    if parse_u64_list_at(data@, pos as int, (count - k - 1) as nat) is Some {
                        let (rest2, end2) = parse_u64_list_at(
                            data@,
                            pos as int,
                            (count - k - 1) as nat,
                        )->Some_0;
                        assert(parse_u64_list_at(data@, pos0, (count - k) as nat) == Some(
                            (seq![v] + rest2, end2),
                        ));
                        assert(acc0 + (seq![v] + rest2) =~= acc@ + rest2);
                    }
                }
            },
            None => {
                return None;
            },
        }
        k = k + 1;
    }
    proof {
        assert(parse_u64_list_at(data@, pos as int, 0) == Some((Seq::<u64>::empty(), pos as int)));
        assert(acc@ + Seq::<u64>::empty() =~= acc@);
    }
    Some((acc, pos))
}

/// Reads `count` identities at `start`, mirroring `parse_key_list_at`.
fn read_key_list_at(data: &[u8], start: usize, count: u32) -> (r: Option<(Vec<Vec<u8>>, usize)>)
    ensures
        r is Some ==> parse_key_list_at(data@, start as int, count as nat) == Some(
            (views_of(r->Some_0.0@), r->Some_0.1 as int),
        ),
        r is Some ==> forall|t: int|
            0 <= t < r->Some_0.0@.len() ==> (#[trigger] r->Some_0.0@[t]@).len() == KEY_LEN,
        r is Some ==> r->Some_0.0@.len() == count,
        r is None ==> parse_key_list_at(data@, start as int, count as nat) is None,
{
    let mut acc: Vec<Vec<u8>> = Vec::new();
    let mut pos: usize = start;
    let mut k: u32 = 0;
    while k < count
        invariant
            k <= count,
            acc@.len() == k,
            forall|t: int| 0 <= t < acc@.len() ==> (#[trigger] acc@[t]@).len() == KEY_LEN,
            (match parse_key_list_at(data@, pos as int, (count - k) as nat) {
                Some((rest, end)) => parse_key_list_at(data@, start as int, count as nat) == Some(
                    (views_of(acc@) + rest, end),
                ),
                None => parse_key_list_at(data@, start as int, count as nat) is None,
            }),
        decreases count - k,
    {
        let ghost acc0 = acc@;
        let ghost pos0 = pos as int;
        match read_key_at(data, pos) {
            Some((b, j)) => {
                acc.push(b);
                pos = j;
                proof {
                    assert(views_of(acc@) =~= views_of(acc0).push(acc@[acc0.len() as int]@));
                    if parse_key_list_at(data@, pos as int, (count - k - 1) as nat) is Some {
                        let (rest2, end2) = parse_key_list_at(
                            data@,
                            pos as int,
                            (count - k - 1) as nat,
                        )->Some_0;
                        assert(parse_key_list_at(data@, pos0, (count - k) as nat) == Some(
                            (seq![acc@[acc0.len() as int]@] + rest2, end2),
                        ));
                        assert(views_of(acc0) + (seq![acc@[acc0.len() as int]@] + rest2)
                            =~= views_of(acc@) + rest2);
                    }
                }
            },
            None => {
                return None;
            },
        }
        k = k + 1;
    }
    proof {
        assert(parse_key_list_at(data@, pos as int, 0) == Some(
            (Seq::<Seq<u8>>::empty(), pos as int),
        ));
        assert(views_of(acc@) + Seq::<Seq<u8>>::empty() =~= views_of(acc@));
    }
    Some((acc, pos))
}

/// Decodes a poll record from the front of an account buffer. Fails with
/// `CorruptState` exactly when the buffer does not hold a valid record.
#[verifier::rlimit(100)]
#[verifier::spinoff_prover]
pub fn decode_poll(data: &[u8]) -> (r: Result<Poll, VoteError>)
    ensures
        (match spec_decode_poll(data@) {
            Some(pv) => r is Ok && r->Ok_0@ == pv && pv.wf() && enc_poll(pv).len() <= data@.len(),
            None => r == Err::<Poll, VoteError>(VoteError::CorruptState),
        }),
{
    let s = data;
    let (creator, i1) = match read_key_at(s, 0) {
        Some(x) => x,
        None => {
            return Err(VoteError::CorruptState);
        },
    };
    let (question, i2) = match read_bytes_at(s, i1) {
        Some(x) => x,
        None => {
            return Err(VoteError::CorruptState);
        },
    };
    let (n_options, i3) = match read_u32_at(s, i2) {
        Some(x) => x,
        None => {
            return Err(VoteError::CorruptState);
        },
    };
    let (options, i4) = match read_bytes_list_at(s, i3, n_options) {
        Some(x) => x,
        None => {
            return Err(VoteError::CorruptState);
        },
    };
    let (n_counts, i5) = match read_u32_at(s, i4) {
        Some(x) => x,
        None => {
            return Err(VoteError::CorruptState);
        },
    };
    let (vote_counts, i6) = match read_u64_list_at(s, i5, n_counts) {
        Some(x) => x,
        None => {
            return Err(VoteError::CorruptState);
        },
    };
    let (start_time, i7) = match read_u64_at(s, i6) {
        Some(x) => x,
        None => {
            return Err(VoteError::CorruptState);
        },
    };
    let (end_time, i8) = match read_u64_at(s, i7) {
        Some(x) => x,
        None => {
            return Err(VoteError::CorruptState);
        },
    };
    let (is_closed, i9) = match read_bool_at(s, i8) {
        Some(x) => x,
        None => {
            return Err(VoteError::CorruptState);
        },
    };
    let (n_voters, i10) = match read_u32_at(s, i9) {
        Some(x) => x,
        None => {
            return Err(VoteError::CorruptState);
        },
    };
    let (voters, _i11) = match read_key_list_at(s, i10, n_voters) {
        Some(x) => x,
        None => {
            return Err(VoteError::CorruptState);
        },
    };
    let poll = Poll {
        creator,
        question,
        options,
        vote_counts,
        start_time,
        end_time,
        is_closed,
        voters,
    };
    proof {
        let pv = poll@;
        assert((pv.options.len() as u32) == n_options);
        assert((pv.vote_counts.len() as u32) == n_counts);
        assert((pv.voters.len() as u32) == n_voters);
        lemma_parse_bytes_list_len(s@, i3 as int, n_options as nat);
        lemma_parse_u64_list_len(s@, i5 as int, n_counts as nat);
        lemma_parse_key_list_len(s@, i10 as int, n_voters as nat);
        assert(enc_bool(pv.is_closed).len() == 1);
        assert(enc_poll(pv).len() == _i11 as int);
        assert(enc_poll(pv).len() <= s@.len());
        lemma_parse_poll_compose(
            s@,
            pv,
            i1 as int,
            i2 as int,
            i3 as int,
            i4 as int,
            i5 as int,
            i6 as int,
            i7 as int,
            i8 as int,
            i9 as int,
            i10 as int,
        );
    }
    if poll.vote_counts.len() != poll.options.len() {
        return Err(VoteError::CorruptState);
    }
    Ok(poll)
}

/// Decodes an instruction. Fails with `InvalidInstruction` exactly when the
/// bytes do not decode to a known variant.
#[verifier::rlimit(100)]
#[verifier::spinoff_prover]
pub fn decode_instruction(data: &[u8]) -> (r: Result<VotingInstruction, VoteError>)
    ensures
        (match parse_instruction(data@) {
            Some(iv) => r is Ok && r->Ok_0@ == iv && iv.wf(),
            None => r == Err::<VotingInstruction, VoteError>(VoteError::InvalidInstruction),
        }),
{
    if data.len() < 1 {
        return Err(VoteError::InvalidInstruction);
    }
    let tag = data[0];
    if tag == TAG_CREATE {
        let (question, i1) = match read_bytes_at(data, 1) {
            Some(x) => x,
            None => {
                return Err(VoteError::InvalidInstruction);
            },
        };
        let (n_options, i2) = match read_u32_at(data, i1) {
            Some(x) => x,
            None => {
                return Err(VoteError::InvalidInstruction);
            },
        };
        let (options, i3) = match read_bytes_list_at(data, i2, n_options) {
            Some(x) => x,
            None => {
                return Err(VoteError::InvalidInstruction);
            },
        };
        let (start_time, i4) = match read_u64_at(data, i3) {
            Some(x) => x,
            None => {
                return Err(VoteError::InvalidInstruction);
            },
        };
        let (end_time, _i5) = match read_u64_at(data, i4) {
            Some(x) => x,
            None => {
                return Err(VoteError::InvalidInstruction);
            },
        };
        let instr = VotingInstruction::CreatePoll { question, options, start_time, end_time };
        proof {
            assert((views_of(instr->CreatePoll_options@).len() as u32) == n_options);
            lemma_parse_create_compose(
                data@,
                instr->CreatePoll_question@,
                views_of(instr->CreatePoll_options@),
                start_time,
                end_time,
                i1 as int,
                i2 as int,
                i3 as int,
                i4 as int,
            );
        }
        Ok(instr)
    } else if tag == TAG_VOTE {
        let (option_index, _j) = match read_u32_at(data, 1) {
            Some(x) => x,
            None => {
                return Err(VoteError::InvalidInstruction);
            },
        };
        Ok(VotingInstruction::Vote { option_index })
    } else if tag == TAG_CLOSE {
        Ok(VotingInstruction::ClosePoll)
    } else {
        Err(VoteError::InvalidInstruction)
    }
}

} // verus!
