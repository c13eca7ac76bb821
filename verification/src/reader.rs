//! Primitive readers: the pieces of a sequence header, read at a cursor into the input.

use crate::error::DecompressError;
use crate::format::{
    lemma_lsic_sum_bounds, literal_nibble, lsic, lsic_sum, match_nibble, u16_le, u32_le, NIBBLE_MAX,
};
use vstd::prelude::*;

verus! {

const FIT_TOKEN_MASK_LITERAL: u8 = 0b00001111;

const FIT_TOKEN_MASK_MATCH: u8 = 0b11110000;

/// Reads a variable-length integer at `*input_pos`.
///
/// Bytes are summed up to and including the first one below 255, and the cursor is left
/// after that byte. The input ending before such a byte is `ExpectedAnotherByte`; a sum
/// above `u32::MAX` is `LiteralOutOfBounds`. On failure the cursor stays within the part
/// of the input that was read.
pub fn read_integer(input: &[u8], input_pos: &mut usize) -> (res: Result<u32, DecompressError>)
    ensures
        match lsic(input@, *old(input_pos) as int) {
            Ok((value, next)) => res == Ok::<u32, DecompressError>(value as u32)
                && *final(input_pos) == next && 0 <= value <= u32::MAX
                && *old(input_pos) < next <= input@.len(),
            Err(e) => res == Err::<u32, DecompressError>(e)
                && *old(input_pos) <= *final(input_pos)
                && (*old(input_pos) <= input@.len() ==> *final(input_pos) <= input@.len()),
        },
{
    let mut n: u32 = 0;
    proof {
        lemma_lsic_sum_bounds(input@, *input_pos as int, 0);
    }
    loop
        invariant
            *old(input_pos) <= *input_pos,
            *old(input_pos) <= input@.len() ==> *input_pos <= input@.len(),
            lsic_sum(input@, *input_pos as int, n as int) == lsic(input@, *old(input_pos) as int),
        decreases input@.len() - *input_pos,
    {
        if *input_pos >= input.len() {
            return Err(DecompressError::ExpectedAnotherByte);
        }
        let extra: u8 = input[*input_pos];
        n = match n.checked_add(extra as u32) {
            Some(sum) => sum,
            None => { return Err(DecompressError::LiteralOutOfBounds); },
        };
        *input_pos = *input_pos + 1;
        if extra != 0xFF {
            return Ok(n);
        }
    }
}

/// Reads a little-endian 16-bit integer at `*input_pos` and moves the cursor past it, or
/// fails with `ExpectedAnotherByte`, leaving the cursor alone, if fewer than two bytes remain.
pub fn read_u16(input: &[u8], input_pos: &mut usize) -> (res: Result<u16, DecompressError>)
    ensures
        *old(input_pos) + 2 <= input@.len() ==> res == Ok::<u16, DecompressError>(
            u16_le(input@, *old(input_pos) as int) as u16,
        ) && *final(input_pos) == *old(input_pos) + 2,
        *old(input_pos) + 2 > input@.len() ==> res == Err::<u16, DecompressError>(
            DecompressError::ExpectedAnotherByte,
        ) && *final(input_pos) == *old(input_pos),
{
    let pos = *input_pos;
    if pos > input.len() || input.len() - pos < 2 {
        return Err(DecompressError::ExpectedAnotherByte);
    }
    let low = input[pos] as u16;
    let high = input[pos + 1] as u16;
    *input_pos = pos + 2;
    Ok(low + 256 * high)
}

/// Whether the token holds both lengths in full, so that no length bytes follow it.
pub fn does_token_fit(token: u8) -> (fits: bool)
    ensures
        fits == (literal_nibble(token) != NIBBLE_MAX && match_nibble(token) != NIBBLE_MAX),
{
    assert((token & 0b00001111u8) == token % 16) by (bit_vector);
    assert(((token & 0b11110000u8) == 0b11110000u8) == (token / 16 == 15)) by (bit_vector);
    !((token & FIT_TOKEN_MASK_LITERAL) == FIT_TOKEN_MASK_LITERAL || (token & FIT_TOKEN_MASK_MATCH)
        == FIT_TOKEN_MASK_MATCH)
}

/// Splits a size-prefixed input into the announced size, a little-endian 32-bit integer,
/// and the block that follows it. Fails with `ExpectedAnotherByte` on fewer than four bytes.
pub fn uncompressed_size(input: &[u8]) -> (res: Result<(usize, &[u8]), DecompressError>)
    ensures
        input@.len() >= 4 ==> (res matches Ok((size, rest)) && size == u32_le(input@, 0) && rest@
            == input@.subrange(4, input@.len() as int)),
        input@.len() < 4 ==> (res matches Err(e) && e == DecompressError::ExpectedAnotherByte),
{
    if input.len() < 4 {
        return Err(DecompressError::ExpectedAnotherByte);
    }
    let size: u32 = input[0] as u32 + 256 * (input[1] as u32) + 65536 * (input[2] as u32) + 16777216
        * (input[3] as u32);
    let rest: &[u8] = &input[4..input.len()];
    Ok((size as usize, rest))
}

} // verus!
