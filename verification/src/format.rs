//! Mathematical model of the LZ4 block format.
//!
//! Everything here is ghost code: sequences of bytes go in, sequences of bytes or an
//! error come out. The executable decoder is proved to compute exactly these functions.

use crate::error::DecompressError;
use vstd::prelude::*;

verus! {

/// Length of the shortest match the format can express.
pub const MINMATCH: usize = 4;

/// Largest value of a token nibble; it announces that length bytes follow.
pub const NIBBLE_MAX: usize = 15;

/// High nibble of the token: the literal length, or 15 if length bytes follow.
pub open spec fn literal_nibble(token: u8) -> int {
    token as int / 16
}

/// Low nibble of the token: the match length less `MINMATCH`, or 15 if length bytes follow.
pub open spec fn match_nibble(token: u8) -> int {
    token as int % 16
}

/// Sum of the length bytes that start at `pos`, added to `acc`.
///
/// Bytes are added up to and including the first one below 255. The result is the sum and
/// the position after the last byte read. The input ending before such a byte is
/// `ExpectedAnotherByte`; a sum above `u32::MAX` is `LiteralOutOfBounds`, reported at the
/// first byte that takes the sum over the limit.
pub open spec fn lsic_sum(input: Seq<u8>, pos: int, acc: int) -> Result<(int, int), DecompressError>
    decreases input.len() - pos,
{
    if pos < 0 || pos >= input.len() {
        Err(DecompressError::ExpectedAnotherByte)
    } else if acc + input[pos] > u32::MAX {
        Err(DecompressError::LiteralOutOfBounds)
    } else if input[pos] != 0xFF {
        Ok((acc + input[pos], pos + 1))
    } else {
        lsic_sum(input, pos + 1, acc + 0xFF)
    }
}

/// The variable-length integer that starts at `pos`: its value and the position after it.
pub open spec fn lsic(input: Seq<u8>, pos: int) -> Result<(int, int), DecompressError> {
    lsic_sum(input, pos, 0)
}

/// Little-endian 16-bit integer at `pos`.
pub open spec fn u16_le(input: Seq<u8>, pos: int) -> int {
    input[pos] + 256 * input[pos + 1]
}

/// Little-endian 32-bit integer at `pos`.
pub open spec fn u32_le(input: Seq<u8>, pos: int) -> int {
    input[pos] + 256 * input[pos + 1] + 65536 * input[pos + 2] + 16777216 * input[pos + 3]
}

/// Literal length of the sequence whose token is `token`, the length bytes, if any,
/// starting at `pos`. Yields the length and the position of the first literal byte.
pub open spec fn literal_length(input: Seq<u8>, token: u8, pos: int) -> Result<
    (int, int),
    DecompressError,
> {
    if literal_nibble(token) == NIBBLE_MAX {
        match lsic(input, pos) {
            Ok((extra, next)) => Ok((NIBBLE_MAX + extra, next)),
            Err(e) => Err(e),
        }
    } else {
        Ok((literal_nibble(token), pos))
    }
}

/// Match length of the sequence whose token is `token`, the length bytes, if any,
/// starting at `pos`. Yields the length and the position after the length bytes.
pub open spec fn match_length(input: Seq<u8>, token: u8, pos: int) -> Result<
    (int, int),
    DecompressError,
> {
    if match_nibble(token) == NIBBLE_MAX {
        match lsic(input, pos) {
            Ok((extra, next)) => Ok((MINMATCH + NIBBLE_MAX + extra, next)),
            Err(e) => Err(e),
        }
    } else {
        Ok((MINMATCH + match_nibble(token), pos))
    }
}

/// The bytes that a match of length `len` at distance `offset` appends to `history`.
///
/// Byte `k` of the match is the byte `offset` places before it in the history extended by
/// the match itself. In closed form the match repeats the last `offset` bytes of `history`
/// for as long as needed.
pub open spec fn match_bytes(history: Seq<u8>, offset: int, len: int) -> Seq<u8> {
    Seq::new(len as nat, |k: int| history[history.len() - offset + k % offset])
}

/// `n` as a `usize`, saturated at `usize::MAX`.
pub open spec fn saturate(n: int) -> usize {
    if n > usize::MAX {
        usize::MAX
    } else {
        n as usize
    }
}

/// The error for a write that would bring the output to `needed` bytes in a sink of
/// `capacity` bytes.
pub open spec fn output_too_small(needed: int, capacity: usize) -> DecompressError {
    DecompressError::OutputTooSmall { expected: saturate(needed), actual: capacity }
}

/// `out` followed by `literals`, if the sink has room for them.
pub open spec fn append_literals(out: Seq<u8>, literals: Seq<u8>, capacity: usize) -> Result<
    Seq<u8>,
    DecompressError,
> {
    if out.len() + literals.len() > capacity {
        Err(output_too_small((out.len() + literals.len()) as int, capacity))
    } else {
        Ok(out + literals)
    }
}

/// `out` followed by the match `(offset, len)`, whose history is `dict` followed by `out`.
///
/// The offset is checked first: zero, or more than the history holds, is
/// `OffsetOutOfBounds`. Then the sink must have room for the whole match.
pub open spec fn append_match(
    dict: Seq<u8>,
    out: Seq<u8>,
    offset: int,
    len: int,
    capacity: usize,
) -> Result<Seq<u8>, DecompressError> {
    if offset <= 0 || offset > dict.len() + out.len() {
        Err(DecompressError::OffsetOutOfBounds)
    } else if out.len() + len > capacity {
        Err(output_too_small(out.len() + len, capacity))
    } else {
        Ok(out + match_bytes(dict + out, offset, len))
    }
}

/// What decoding one sequence leads to.
pub enum Step {
    /// The sequence was the last one; `out` is the decoded output.
    Finished { out: Seq<u8> },
    /// The sequence held a match; decoding goes on at `next` with `out` produced so far.
    Continue { next: int, out: Seq<u8> },
    /// The sequence is malformed or the sink too small.
    Failed { error: DecompressError },
}

/// The literal part of the sequence whose token stands at `pos`: the position after the
/// literals and the output with the literals appended.
///
/// The checks come in this order: literal length, literal bounds in the input, room for
/// the literals.
pub open spec fn literal_stage(input: Seq<u8>, capacity: usize, pos: int, out: Seq<u8>) -> Result<
    (int, Seq<u8>),
    DecompressError,
> {
    match literal_length(input, input[pos], pos + 1) {
        Err(e) => Err(e),
        Ok((len, start)) => {
            if start + len > input.len() {
                Err(DecompressError::LiteralOutOfBounds)
            } else {
                match append_literals(out, input.subrange(start, start + len), capacity) {
                    Err(e) => Err(e),
                    Ok(with_literals) => Ok((start + len, with_literals)),
                }
            }
        },
    }
}

/// The match part of a sequence with token `token`, whose offset bytes stand at `pos`: the
/// position after the sequence and the output with the match appended.
///
/// The checks come in this order: offset bytes, match length, offset validity, room for
/// the match.
pub open spec fn match_stage(
    input: Seq<u8>,
    dict: Seq<u8>,
    capacity: usize,
    token: u8,
    pos: int,
    out: Seq<u8>,
) -> Result<(int, Seq<u8>), DecompressError> {
    if pos + 2 > input.len() {
        Err(DecompressError::ExpectedAnotherByte)
    } else {
        match match_length(input, token, pos + 2) {
            Err(e) => Err(e),
            Ok((len, next)) => {
                match append_match(dict, out, u16_le(input, pos), len, capacity) {
                    Err(e) => Err(e),
                    Ok(with_match) => Ok((next, with_match)),
                }
            },
        }
    }
}

/// Decodes the sequence whose token stands at `pos`, with `out` produced so far.
///
/// A sequence whose literals reach the end of the input is the last one; any other
/// carries a match.
pub open spec fn step(
    input: Seq<u8>,
    dict: Seq<u8>,
    capacity: usize,
    pos: int,
    out: Seq<u8>,
) -> Step {
    if pos < 0 || pos >= input.len() {
        Step::Failed { error: DecompressError::ExpectedAnotherByte }
    } else {
        match literal_stage(input, capacity, pos, out) {
            Err(error) => Step::Failed { error },
            Ok((lit_end, with_literals)) => {
                if lit_end == input.len() {
                    Step::Finished { out: with_literals }
                } else {
                    match match_stage(input, dict, capacity, input[pos], lit_end, with_literals) {
                        Err(error) => Step::Failed { error },
                        Ok((next, with_match)) => Step::Continue { next, out: with_match },
                    }
                }
            },
        }
    }
}

/// A successful `lsic_sum` ends after `pos`, within the input, and its value is at least `acc`.
pub proof fn lemma_lsic_sum_bounds(input: Seq<u8>, pos: int, acc: int)
    ensures
        lsic_sum(input, pos, acc) matches Ok((value, next)) ==> pos < next <= input.len() && acc
            <= value <= u32::MAX,
    decreases input.len() - pos,
{
    if 0 <= pos < input.len() && acc + input[pos] <= u32::MAX && input[pos] == 0xFF {
        lemma_lsic_sum_bounds(input, pos + 1, acc + 0xFF);
    }
}

/// A step that continues has consumed at least the token and the two offset bytes.
pub proof fn lemma_step_advances(
    input: Seq<u8>,
    dict: Seq<u8>,
    capacity: usize,
    pos: int,
    out: Seq<u8>,
)
    ensures
        step(input, dict, capacity, pos, out) matches Step::Continue { next, .. } ==> pos + 3
            <= next <= input.len(),
{
    if 0 <= pos < input.len() {
        let token = input[pos];
        lemma_lsic_sum_bounds(input, pos + 1, 0);
        if let Ok((lit_len, lit_start)) = literal_length(input, token, pos + 1) {
            lemma_lsic_sum_bounds(input, lit_start + lit_len + 2, 0);
        }
    }
}

/// Decodes the block from the sequence at `pos` on, with `out` produced so far.
pub open spec fn decode_from(
    input: Seq<u8>,
    dict: Seq<u8>,
    capacity: usize,
    pos: int,
    out: Seq<u8>,
) -> Result<Seq<u8>, DecompressError>
    decreases input.len() - pos,
{
    match step(input, dict, capacity, pos, out) {
        Step::Finished { out } => Ok(out),
        Step::Failed { error } => Err(error),
        Step::Continue { next, out: produced } => {
            proof {
                lemma_step_advances(input, dict, capacity, pos, out);
            }
            decode_from(input, dict, capacity, next, produced)
        },
    }
}

/// What the sink holds when decoding from the sequence at `pos` on comes to a stop, with
/// `out` held at the start: all of the output if the block decodes, and else the output
/// up to the stage that fails. Where the match of a sequence fails, its literals stay.
pub open spec fn written_from(
    input: Seq<u8>,
    dict: Seq<u8>,
    capacity: usize,
    pos: int,
    out: Seq<u8>,
) -> Seq<u8>
    decreases input.len() - pos,
{
    if pos < 0 || pos >= input.len() {
        out
    } else {
        match literal_stage(input, capacity, pos, out) {
            Err(_) => out,
            Ok((lit_end, with_literals)) => {
                if lit_end == input.len() {
                    with_literals
                } else {
                    match match_stage(input, dict, capacity, input[pos], lit_end, with_literals) {
                        Err(_) => with_literals,
                        Ok((next, with_match)) => {
                            proof {
                                lemma_step_advances(input, dict, capacity, pos, out);
                            }
                            written_from(input, dict, capacity, next, with_match)
                        },
                    }
                }
            },
        }
    }
}

/// What a sink of `capacity` bytes that held `prefix` holds after `input` was decoded into
/// it, whether that succeeded or not.
pub open spec fn written(input: Seq<u8>, dict: Seq<u8>, prefix: Seq<u8>, capacity: usize) -> Seq<
    u8,
> {
    written_from(input, dict, capacity, 0, prefix)
}

/// The output of decoding `input` into a sink of `capacity` bytes that already holds
/// `prefix`, with `dict` as external dictionary: `prefix` followed by the decoded bytes.
pub open spec fn decode(input: Seq<u8>, dict: Seq<u8>, prefix: Seq<u8>, capacity: usize) -> Result<
    Seq<u8>,
    DecompressError,
> {
    decode_from(input, dict, capacity, 0, prefix)
}

/// The result of decoding `input` into a fresh buffer of exactly `size` bytes.
pub open spec fn decode_exact(input: Seq<u8>, dict: Seq<u8>, size: usize) -> Result<
    Seq<u8>,
    DecompressError,
> {
    match decode(input, dict, Seq::empty(), size) {
        Ok(out) => if out.len() == size {
            Ok(out)
        } else {
            Err(
                DecompressError::UncompressedSizeDiffers {
                    expected: size,
                    actual: out.len() as usize,
                },
            )
        },
        Err(e) => Err(e),
    }
}

/// The result of decoding a size-prefixed input: four bytes that announce the size of the
/// output, then the block.
pub open spec fn decode_size_prepended(input: Seq<u8>, dict: Seq<u8>) -> Result<
    Seq<u8>,
    DecompressError,
> {
    if input.len() < 4 {
        Err(DecompressError::ExpectedAnotherByte)
    } else {
        decode_exact(input.subrange(4, input.len() as int), dict, u32_le(input, 0) as usize)
    }
}

} // verus!
