//! Theorems about the format model.
//!
//! The decoder is proved to compute `decode`, so what is shown here of `decode` holds of
//! every run of the decoder.

use crate::error::DecompressError;
use crate::format::{
    decode, decode_exact, decode_from, lemma_lsic_sum_bounds,
    lemma_step_advances, literal_length, literal_stage, lsic_sum, match_bytes, match_length,
    match_stage, step, u16_le, written_from, Step, MINMATCH,
};
use vstd::prelude::*;

verus! {

/// The literal part of a sequence only appends to the output, within the capacity, and
/// ends after the token, within the input.
pub proof fn lemma_literal_stage_appends(input: Seq<u8>, capacity: usize, pos: int, out: Seq<u8>)
    requires
        0 <= pos < input.len(),
    ensures
        literal_stage(input, capacity, pos, out) matches Ok((end, produced)) ==> pos < end
            <= input.len() && out.is_prefix_of(produced) && produced.len() <= capacity,
{
    lemma_lsic_sum_bounds(input, pos + 1, 0);
}

/// The match part of a sequence appends at least `MINMATCH` bytes to the output, within
/// the capacity, and ends after the offset bytes, within the input. The offset it used
/// lies between 1 and the length of the history.
pub proof fn lemma_match_stage_appends(
    input: Seq<u8>,
    dict: Seq<u8>,
    capacity: usize,
    token: u8,
    pos: int,
    out: Seq<u8>,
)
    requires
        0 <= pos,
    ensures
        match_stage(input, dict, capacity, token, pos, out) matches Ok((next, produced)) ==> pos
            + 2 <= next <= input.len() && out.is_prefix_of(produced) && out.len() + MINMATCH
            <= produced.len() <= capacity && 1 <= u16_le(input, pos) <= dict.len() + out.len(),
{
    lemma_lsic_sum_bounds(input, pos + 2, 0);
}

/// Decoding only appends: the output of a successful decode starts with what was there
/// before, and it fits the capacity.
pub proof fn lemma_decode_appends(
    input: Seq<u8>,
    dict: Seq<u8>,
    capacity: usize,
    pos: int,
    out: Seq<u8>,
)
    ensures
        decode_from(input, dict, capacity, pos, out) matches Ok(decoded) ==> out.is_prefix_of(
            decoded,
        ) && decoded.len() <= capacity,
    decreases input.len() - pos,
{
    if 0 <= pos < input.len() {
        lemma_literal_stage_appends(input, capacity, pos, out);
        if let Ok((end, with_literals)) = literal_stage(input, capacity, pos, out) {
            if end != input.len() {
                lemma_match_stage_appends(input, dict, capacity, input[pos], end, with_literals);
                if let Ok((next, with_match)) = match_stage(
                    input,
                    dict,
                    capacity,
                    input[pos],
                    end,
                    with_literals,
                ) {
                    lemma_decode_appends(input, dict, capacity, next, with_match);
                }
            }
        }
    }
}

/// Where a block decodes, the sink ends up holding the decoded output.
pub proof fn lemma_written_is_decoded(
    input: Seq<u8>,
    dict: Seq<u8>,
    capacity: usize,
    pos: int,
    out: Seq<u8>,
)
    ensures
        decode_from(input, dict, capacity, pos, out) matches Ok(decoded) ==> written_from(
            input,
            dict,
            capacity,
            pos,
            out,
        ) == decoded,
    decreases input.len() - pos,
{
    lemma_step_advances(input, dict, capacity, pos, out);
    if let Step::Continue { next, out: with_match } = step(input, dict, capacity, pos, out) {
        lemma_written_is_decoded(input, dict, capacity, next, with_match);
    }
}

/// Whether a block decodes or not, the sink keeps what it held and only gains bytes,
/// within its capacity.
pub proof fn lemma_written_appends(
    input: Seq<u8>,
    dict: Seq<u8>,
    capacity: usize,
    pos: int,
    out: Seq<u8>,
)
    requires
        out.len() <= capacity,
    ensures
        out.is_prefix_of(written_from(input, dict, capacity, pos, out)),
        written_from(input, dict, capacity, pos, out).len() <= capacity,
    decreases input.len() - pos,
{
    if 0 <= pos < input.len() {
        lemma_literal_stage_appends(input, capacity, pos, out);
        lemma_step_advances(input, dict, capacity, pos, out);
        if let Ok((end, with_literals)) = literal_stage(input, capacity, pos, out) {
            if end != input.len() {
                lemma_match_stage_appends(input, dict, capacity, input[pos], end, with_literals);
                if let Ok((next, with_match)) = match_stage(
                    input,
                    dict,
                    capacity,
                    input[pos],
                    end,
                    with_literals,
                ) {
                    lemma_written_appends(input, dict, capacity, next, with_match);
                }
            }
        }
    }
}

/// Every offset that a successful step uses lies within the history: it is at least 1
/// and at most the length of the dictionary and of the output at the start of the match.
pub proof fn lemma_used_offset_in_history(
    input: Seq<u8>,
    dict: Seq<u8>,
    capacity: usize,
    pos: int,
    out: Seq<u8>,
)
    requires
        step(input, dict, capacity, pos, out) is Continue,
    ensures
        literal_stage(input, capacity, pos, out) matches Ok((end, with_literals)) && 1 <= u16_le(
            input,
            end,
        ) <= dict.len() + with_literals.len(),
{
    lemma_literal_stage_appends(input, capacity, pos, out);
    if let Ok((end, with_literals)) = literal_stage(input, capacity, pos, out) {
        lemma_match_stage_appends(input, dict, capacity, input[pos], end, with_literals);
    }
}

/// An offset of zero, or one that exceeds the history, fails the block with
/// `OffsetOutOfBounds`, whatever the capacity: the sequence at `pos` is sound up to its
/// match length, and its offset is zero or larger than the dictionary and the output
/// together.
pub proof fn lemma_bad_offset_fails(
    input: Seq<u8>,
    dict: Seq<u8>,
    capacity: usize,
    pos: int,
    out: Seq<u8>,
)
    requires
        0 <= pos < input.len(),
        literal_stage(input, capacity, pos, out) matches Ok((end, with_literals)) && end + 2
            <= input.len() && match_length(input, input[pos], end + 2) is Ok && (u16_le(input, end)
            == 0 || u16_le(input, end) > dict.len() + with_literals.len()),
    ensures
        decode_from(input, dict, capacity, pos, out) == Err::<Seq<u8>, DecompressError>(
            DecompressError::OffsetOutOfBounds,
        ),
{
}

/// The output does not depend on the capacity: a block that decodes in one sink decodes
/// to the same bytes in any sink that has room for them.
pub proof fn lemma_capacity_independent(
    input: Seq<u8>,
    dict: Seq<u8>,
    prefix: Seq<u8>,
    capacity: usize,
    other: usize,
)
    requires
        decode(input, dict, prefix, capacity) matches Ok(decoded) && decoded.len() <= other,
    ensures
        decode(input, dict, prefix, other) == decode(input, dict, prefix, capacity),
{
    lemma_capacity_independent_from(input, dict, capacity, other, 0, prefix);
}

/// `lemma_capacity_independent` for a decode that starts at `pos`.
pub proof fn lemma_capacity_independent_from(
    input: Seq<u8>,
    dict: Seq<u8>,
    capacity: usize,
    other: usize,
    pos: int,
    out: Seq<u8>,
)
    requires
        decode_from(input, dict, capacity, pos, out) matches Ok(decoded) && decoded.len() <= other,
    ensures
        decode_from(input, dict, other, pos, out) == decode_from(input, dict, capacity, pos, out),
    decreases input.len() - pos,
{
    lemma_literal_stage_appends(input, capacity, pos, out);
    lemma_step_advances(input, dict, capacity, pos, out);
    lemma_step_advances(input, dict, other, pos, out);
    if let Ok((end, with_literals)) = literal_stage(input, capacity, pos, out) {
        if end != input.len() {
            lemma_match_stage_appends(input, dict, capacity, input[pos], end, with_literals);
            if let Ok((next, with_match)) = match_stage(
                input,
                dict,
                capacity,
                input[pos],
                end,
                with_literals,
            ) {
                // What this sequence produces is part of the final output, so it fits in
                // the other sink too, and both decodes go on from the same state.
                lemma_decode_appends(input, dict, capacity, next, with_match);
                lemma_capacity_independent_from(input, dict, capacity, other, next, with_match);
            }
        }
    }
}

/// What the sink already holds is history just as the dictionary is: decoding after
/// `prefix` with `dict` as dictionary yields the bytes that decoding into an empty sink,
/// smaller by the length of `prefix`, with `dict` followed by `prefix` as dictionary
/// yields. Where one fails, so does the other.
pub proof fn lemma_prefix_is_history(
    input: Seq<u8>,
    dict: Seq<u8>,
    prefix: Seq<u8>,
    capacity: usize,
)
    requires
        prefix.len() <= capacity,
    ensures
        match decode(input, dict, prefix, capacity) {
            Ok(decoded) => decode(
                input,
                dict + prefix,
                Seq::empty(),
                (capacity - prefix.len()) as usize,
            ) == Ok::<Seq<u8>, DecompressError>(
                decoded.subrange(prefix.len() as int, decoded.len() as int),
            ),
            Err(_) => decode(
                input,
                dict + prefix,
                Seq::empty(),
                (capacity - prefix.len()) as usize,
            ) is Err,
        },
{
    lemma_prefix_is_history_from(input, dict, prefix, capacity, 0, Seq::empty());
}

/// `lemma_prefix_is_history` for a decode that starts at `pos`, with `out` decoded so far.
pub proof fn lemma_prefix_is_history_from(
    input: Seq<u8>,
    dict: Seq<u8>,
    prefix: Seq<u8>,
    capacity: usize,
    pos: int,
    out: Seq<u8>,
)
    requires
        prefix.len() <= capacity,
    ensures
        match decode_from(input, dict, capacity, pos, prefix + out) {
            Ok(decoded) => decode_from(
                input,
                dict + prefix,
                (capacity - prefix.len()) as usize,
                pos,
                out,
            ) == Ok::<Seq<u8>, DecompressError>(
                decoded.subrange(prefix.len() as int, decoded.len() as int),
            ),
            Err(_) => decode_from(
                input,
                dict + prefix,
                (capacity - prefix.len()) as usize,
                pos,
                out,
            ) is Err,
        },
    decreases input.len() - pos,
{
    let room = (capacity - prefix.len()) as usize;
    let history = dict + prefix;
    lemma_step_advances(input, dict, capacity, pos, prefix + out);
    lemma_step_advances(input, history, room, pos, out);
    if 0 <= pos < input.len() {
        lemma_lsic_sum_bounds(input, pos + 1, 0);
        if let Ok((len, start)) = literal_length(input, input[pos], pos + 1) {
            let end = start + len;
            lemma_lsic_sum_bounds(input, end + 2, 0);
            if end <= input.len() && out.len() + len <= room {
                let with_literals = out + input.subrange(start, end);
                assert((prefix + out) + input.subrange(start, end) =~= prefix + with_literals);
                if end == input.len() {
                    assert((prefix + with_literals).subrange(
                        prefix.len() as int,
                        (prefix + with_literals).len() as int,
                    ) =~= with_literals);
                } else if end + 2 <= input.len() {
                    if let Ok((match_len, next)) = match_length(input, input[pos], end + 2) {
                        let offset = u16_le(input, end);
                        assert(dict + (prefix + with_literals) =~= history + with_literals);
                        let copied = match_bytes(history + with_literals, offset, match_len);
                        assert((prefix + with_literals) + copied =~= prefix + (with_literals
                            + copied));
                        if 1 <= offset <= history.len() + with_literals.len() && with_literals.len()
                            + match_len <= room {
                            lemma_prefix_is_history_from(
                                input,
                                dict,
                                prefix,
                                capacity,
                                next,
                                with_literals + copied,
                            );
                        }
                    }
                }
            }
        }
    }
}

/// Length bytes that run to the end of the input without a byte below 255 fail with
/// `ExpectedAnotherByte`, or with `LiteralOutOfBounds` where the sum passes `u32::MAX`
/// before the input ends.
pub proof fn lemma_unfinished_length_fails(input: Seq<u8>, pos: int, acc: int)
    requires
        0 <= pos,
        forall|i: int| pos <= i < input.len() ==> input[i] == 0xFF,
    ensures
        lsic_sum(input, pos, acc) == Err::<(int, int), DecompressError>(
            DecompressError::ExpectedAnotherByte,
        ) || lsic_sum(input, pos, acc) == Err::<(int, int), DecompressError>(
            DecompressError::LiteralOutOfBounds,
        ),
    decreases input.len() - pos,
{
    if pos < input.len() && acc + input[pos] <= u32::MAX {
        lemma_unfinished_length_fails(input, pos + 1, acc + 0xFF);
    }
}

/// Length bytes cut short: if the integer at `pos` ends within the first `keep` bytes,
/// it reads the same from those bytes alone; if not, they yield `ExpectedAnotherByte`.
pub proof fn lemma_lsic_sum_truncated(input: Seq<u8>, pos: int, acc: int, keep: int)
    requires
        0 <= pos <= keep <= input.len(),
    ensures
        lsic_sum(input, pos, acc) matches Ok((value, next)) ==> lsic_sum(
            input.take(keep),
            pos,
            acc,
        ) == (if next <= keep {
            Ok::<(int, int), DecompressError>((value, next))
        } else {
            Err::<(int, int), DecompressError>(DecompressError::ExpectedAnotherByte)
        }),
    decreases input.len() - pos,
{
    lemma_lsic_sum_bounds(input, pos, acc);
    if pos < keep && acc + input[pos] <= u32::MAX && input[pos] == 0xFF {
        lemma_lsic_sum_truncated(input, pos + 1, acc + 0xFF, keep);
    }
}

/// The literal part of a sequence cut short: if it ends within the first `keep` bytes,
/// it decodes the same from those bytes alone. If the input ends in its length bytes,
/// they yield `ExpectedAnotherByte`; if it ends in its literals, `LiteralOutOfBounds`.
pub proof fn lemma_literal_stage_truncated(
    input: Seq<u8>,
    capacity: usize,
    pos: int,
    out: Seq<u8>,
    keep: int,
)
    requires
        0 <= pos < keep <= input.len(),
    ensures
        literal_stage(input, capacity, pos, out) matches Ok((end, produced)) ==> literal_stage(
            input.take(keep),
            capacity,
            pos,
            out,
        ) == (if end <= keep {
            Ok::<(int, Seq<u8>), DecompressError>((end, produced))
        } else if literal_length(input, input[pos], pos + 1) matches Ok((len, start)) && start
            <= keep {
            Err::<(int, Seq<u8>), DecompressError>(DecompressError::LiteralOutOfBounds)
        } else {
            Err::<(int, Seq<u8>), DecompressError>(DecompressError::ExpectedAnotherByte)
        }),
{
    let cut = input.take(keep);
    lemma_lsic_sum_truncated(input, pos + 1, 0, keep);
    lemma_lsic_sum_bounds(input, pos + 1, 0);
    if let Ok((len, start)) = literal_length(input, input[pos], pos + 1) {
        if start + len <= keep {
            assert(cut.subrange(start, start + len) =~= input.subrange(start, start + len));
        }
    }
}

/// The match part of a sequence cut short: if it ends within the first `keep` bytes, it
/// decodes the same from those bytes alone; if not, they yield `ExpectedAnotherByte`.
pub proof fn lemma_match_stage_truncated(
    input: Seq<u8>,
    dict: Seq<u8>,
    capacity: usize,
    token: u8,
    pos: int,
    out: Seq<u8>,
    keep: int,
)
    requires
        0 <= pos <= keep <= input.len(),
    ensures
        match_stage(input, dict, capacity, token, pos, out) matches Ok((next, produced))
            ==> match_stage(input.take(keep), dict, capacity, token, pos, out) == (if next <= keep {
            Ok::<(int, Seq<u8>), DecompressError>((next, produced))
        } else {
            Err::<(int, Seq<u8>), DecompressError>(DecompressError::ExpectedAnotherByte)
        }),
{
    if pos + 2 <= keep {
        lemma_lsic_sum_truncated(input, pos + 2, 0, keep);
    }
    lemma_lsic_sum_bounds(input, pos + 2, 0);
}

/// Input that ends inside a sequence, anywhere but right after its literals, fails with
/// `ExpectedAnotherByte` or `LiteralOutOfBounds`: the sequence at `pos` decodes from the
/// whole input, and only the first `keep` bytes are given, which end after its token
/// and before its end.
pub proof fn lemma_cut_sequence_fails(
    input: Seq<u8>,
    dict: Seq<u8>,
    capacity: usize,
    pos: int,
    out: Seq<u8>,
    keep: int,
)
    requires
        0 <= pos < keep < input.len(),
        !(step(input, dict, capacity, pos, out) is Failed),
        step(input, dict, capacity, pos, out) matches Step::Continue { next, .. } ==> keep < next,
        literal_stage(input, capacity, pos, out) matches Ok((end, _)) && end != keep,
    ensures
        step(input.take(keep), dict, capacity, pos, out) == (Step::Failed {
            error: DecompressError::ExpectedAnotherByte,
        }) || step(input.take(keep), dict, capacity, pos, out) == (Step::Failed {
            error: DecompressError::LiteralOutOfBounds,
        }),
{
    lemma_literal_stage_truncated(input, capacity, pos, out, keep);
    lemma_literal_stage_appends(input, capacity, pos, out);
    if let Ok((end, with_literals)) = literal_stage(input, capacity, pos, out) {
        if end < keep {
            lemma_match_stage_truncated(
                input,
                dict,
                capacity,
                input[pos],
                end,
                with_literals,
                keep,
            );
        }
    }
}

/// A block cut short by at least one byte fails with `ExpectedAnotherByte` or
/// `LiteralOutOfBounds`, or it decodes to fewer bytes than the whole block does. The
/// latter happens where the cut falls right after the literals of a sequence, which
/// leaves a shorter block that is well formed.
pub proof fn lemma_truncated_decode_is_shorter(
    input: Seq<u8>,
    dict: Seq<u8>,
    capacity: usize,
    pos: int,
    out: Seq<u8>,
    keep: int,
)
    requires
        0 <= pos <= keep < input.len(),
        decode_from(input, dict, capacity, pos, out) is Ok,
    ensures
        match decode_from(input.take(keep), dict, capacity, pos, out) {
            Ok(short) => (decode_from(input, dict, capacity, pos, out) matches Ok(whole)
                && short.len() < whole.len()),
            Err(e) => e == DecompressError::ExpectedAnotherByte || e
                == DecompressError::LiteralOutOfBounds,
        },
    decreases input.len() - pos,
{
    let cut = input.take(keep);
    lemma_step_advances(input, dict, capacity, pos, out);
    lemma_step_advances(cut, dict, capacity, pos, out);
    if pos < keep {
        lemma_literal_stage_truncated(input, capacity, pos, out, keep);
        lemma_literal_stage_appends(input, capacity, pos, out);
        if let Ok((end, with_literals)) = literal_stage(input, capacity, pos, out) {
            if end <= keep {
                let token = input[pos];
                lemma_match_stage_truncated(input, dict, capacity, token, end, with_literals, keep);
                lemma_match_stage_appends(input, dict, capacity, token, end, with_literals);
                if let Ok((next, with_match)) = match_stage(
                    input,
                    dict,
                    capacity,
                    token,
                    end,
                    with_literals,
                ) {
                    lemma_decode_appends(input, dict, capacity, next, with_match);
                    if end < keep && next <= keep {
                        lemma_truncated_decode_is_shorter(
                            input,
                            dict,
                            capacity,
                            next,
                            with_match,
                            keep,
                        );
                    }
                }
            }
        }
    }
}

/// A block that decodes to the announced size does not decode once it is cut short by
/// one byte or more: it fails with `ExpectedAnotherByte`, `LiteralOutOfBounds` or, where
/// what is left is a shorter block, `UncompressedSizeDiffers`.
pub proof fn lemma_truncated_block_fails(input: Seq<u8>, dict: Seq<u8>, size: usize, keep: int)
    requires
        decode_exact(input, dict, size) is Ok,
        0 <= keep < input.len(),
    ensures
        decode_exact(input.take(keep), dict, size) matches Err(e) && (e
            == DecompressError::ExpectedAnotherByte || e == DecompressError::LiteralOutOfBounds
            || (e matches DecompressError::UncompressedSizeDiffers { expected, actual }
            && expected == size && actual < size)),
{
    lemma_truncated_decode_is_shorter(input, dict, size, 0, Seq::empty(), keep);
}

/// A block that decodes with an announced size decodes to exactly that many bytes.
pub proof fn lemma_decoded_length_is_size(input: Seq<u8>, dict: Seq<u8>, size: usize)
    ensures
        decode_exact(input, dict, size) matches Ok(decoded) ==> decoded.len() == size,
{
}

} // verus!
