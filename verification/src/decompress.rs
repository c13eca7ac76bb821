//! The decode loop and the entry points built on it.

use crate::backref::{
    copy_from_dict, duplicate_overlapping_slice, duplicate_slice, lemma_splice_starts_match,
};
use crate::bytes::write_at;
use crate::error::DecompressError;
use crate::format::{
    decode, decode_exact, decode_from, decode_size_prepended, lemma_step_advances, literal_nibble,
    literal_stage, match_bytes, match_nibble, match_stage, saturate, step, written, written_from,
    Step, MINMATCH, NIBBLE_MAX,
};
use crate::history::{
    lemma_match_across_dictionary, lemma_match_bytes_disjoint, lemma_match_bytes_recent,
};
use crate::reader::{does_token_fit, read_integer, read_u16, uncompressed_size};
use crate::sink::{lemma_forward_copy_bytes, Sink};
use vstd::prelude::*;

verus! {

/// Capacity that a sink needs to take `uncompressed_size` bytes of output. The decoder
/// never writes past the announced size on a sink of exactly that size, so no slack is added.
pub fn decompress_sink_size(uncompressed_size: usize) -> (size: usize)
    ensures
        size == uncompressed_size,
{
    uncompressed_size
}

/// `pos + len` as a `usize`, saturated at `usize::MAX`.
fn saturating_end(pos: usize, len: u64) -> (end: usize)
    ensures
        end == saturate(pos + len),
{
    let end: u128 = pos as u128 + len as u128;
    if end > usize::MAX as u128 {
        usize::MAX
    } else {
        end as usize
    }
}

/// Decodes the block `input` into `output`, after the bytes the sink already holds, which
/// matches may refer to. Returns the number of bytes written.
///
/// On failure the sink holds what was written up to the stage that failed.
pub fn decompress_into(input: &[u8], output: &mut Sink) -> (res: Result<usize, DecompressError>)
    requires
        old(output).wf(),
    ensures
        final(output).wf(),
        final(output).output@.len() == old(output).output@.len(),
        final(final(output).output)@ == final(old(output).output)@,
        old(output).pos <= final(output).pos,
        final(output)@.subrange(0, old(output).pos as int) == old(output)@,
        final(output)@ == written(input@, Seq::empty(), old(output)@, old(output).capacity()),
        match decode(input@, Seq::empty(), old(output)@, old(output).capacity()) {
            Ok(out) => (res matches Ok(written) && written == out.len() - old(output).pos)
                && final(output)@ == out,
            Err(e) => res == Err::<usize, DecompressError>(e),
        },
        res matches Ok(written) ==> final(output).pos == old(output).pos + written,
{
    let no_dict: [u8; 0] = [];
    let no_dict = no_dict.as_slice();
    assert(no_dict@ =~= Seq::<u8>::empty());
    decompress_internal::<false>(input, output, no_dict)
}

/// Decodes the block `input` into `output` as `decompress_into` does, with `ext_dict`
/// as the history that precedes the sink: matches may reach back past the start of the
/// sink into the end of `ext_dict`.
pub fn decompress_into_with_dict(input: &[u8], output: &mut Sink, ext_dict: &[u8]) -> (res: Result<
    usize,
    DecompressError,
>)
    requires
        old(output).wf(),
    ensures
        final(output).wf(),
        final(output).output@.len() == old(output).output@.len(),
        final(final(output).output)@ == final(old(output).output)@,
        old(output).pos <= final(output).pos,
        final(output)@.subrange(0, old(output).pos as int) == old(output)@,
        final(output)@ == written(input@, ext_dict@, old(output)@, old(output).capacity()),
        match decode(input@, ext_dict@, old(output)@, old(output).capacity()) {
            Ok(out) => (res matches Ok(written) && written == out.len() - old(output).pos)
                && final(output)@ == out,
            Err(e) => res == Err::<usize, DecompressError>(e),
        },
        res matches Ok(written) ==> final(output).pos == old(output).pos + written,
{
    decompress_internal::<true>(input, output, ext_dict)
}

/// Decodes one sequence that holds both lengths in its token and lies far from either
/// end: at least 18 bytes of input follow the token, and the sink has more than 34 bytes
/// left. The token has been read; its sequence always carries a match.
///
/// The literals and a match that does not overlap its source are copied in fixed-size
/// blocks that write past what is needed; the distance to the ends makes that safe.
#[verifier::rlimit(40)]
fn copy_sequence_fast<const USE_DICT: bool>(
    input: &[u8],
    input_pos: &mut usize,
    token: u8,
    output: &mut Sink,
    ext_dict: &[u8],
) -> (res: Result<(), DecompressError>)
    requires
        old(output).wf(),
        !USE_DICT ==> ext_dict@.len() == 0,
        1 <= *old(input_pos),
        *old(input_pos) + 18 <= input@.len() <= usize::MAX,
        token == input@[*old(input_pos) - 1],
        literal_nibble(token) != NIBBLE_MAX,
        match_nibble(token) != NIBBLE_MAX,
        old(output).pos + 34 < old(output).output@.len(),
    ensures
        final(output).wf(),
        final(output).output@.len() == old(output).output@.len(),
        final(final(output).output)@ == final(old(output).output)@,
        old(output).pos <= final(output).pos,
        final(output)@.subrange(0, old(output).pos as int) == old(output)@,
        match step(
            input@,
            ext_dict@,
            old(output).capacity(),
            *old(input_pos) - 1,
            old(output)@,
        ) {
            Step::Continue { next, out } => res == Ok::<(), DecompressError>(())
                && *final(input_pos) == next && final(output)@ == out,
            Step::Failed { error } => res == Err::<(), DecompressError>(error),
            Step::Finished { .. } => false,
        },
        res is Err ==> (literal_stage(
            input@,
            old(output).capacity(),
            *old(input_pos) - 1,
            old(output)@,
        ) matches Ok((_, with_literals)) && final(output)@ == with_literals),
{
    let ghost dict = ext_dict@;
    let ghost capacity = output.capacity();
    let ghost token_pos = *input_pos - 1;
    let ghost before = output@;
    let dict_len = ext_dict.len();
    assert(token >> 4 == token / 16) by (bit_vector);
    assert(token & 0xF == token % 16) by (bit_vector);

    let literal_length = (token >> 4) as usize;
    // At most 14 literal bytes are due, and they lie within the input; 16 are copied.
    assert(*input_pos + literal_length <= input@.len());
    write_at(output.output, output.pos, &input[*input_pos..*input_pos + 16]);
    output.pos = output.pos + literal_length;
    *input_pos = *input_pos + literal_length;
    let ghost with_literals = output@;
    let ghost offset_pos = *input_pos as int;
    assert(with_literals =~= before + input@.subrange(offset_pos - literal_length, offset_pos));
    assert(literal_stage(input@, capacity, token_pos, before) == Ok::<
        (int, Seq<u8>),
        DecompressError,
    >((offset_pos, with_literals)));

    let offset = match read_u16(input, input_pos) {
        Ok(offset) => offset as usize,
        Err(e) => { return Err(e); },
    };
    let match_length = MINMATCH + (token & 0xF) as usize;
    let ghost whole = match_length as int;
    assert(crate::format::match_length(input@, token, offset_pos + 2) == Ok::<
        (int, int),
        DecompressError,
    >((whole, *input_pos as int)));

    if offset == 0 || (offset > output.pos && offset - output.pos > dict_len) {
        return Err(DecompressError::OffsetOutOfBounds);
    }
    assert(match_stage(input@, dict, capacity, token, offset_pos, with_literals) == Ok::<
        (int, Seq<u8>),
        DecompressError,
    >(
        (
            *input_pos as int,
            with_literals + match_bytes(dict + with_literals, offset as int, whole),
        ),
    ));

    if USE_DICT && offset > output.pos() {
        // After a splice the cursor may stand too close to the end for a block copy, so
        // what is left of the match goes through the general copier.
        return copy_match_from_dict(output, ext_dict, offset, match_length);
    }
    proof {
        lemma_match_bytes_recent(dict, with_literals, offset as int, whole);
    }

    let start = output.pos - offset;
    if offset >= match_length {
        // At most 18 match bytes are due; 18 are copied.
        let ghost filled = output.output@;
        output.copy_within(start, start + 18, output.pos);
        output.pos = output.pos + match_length;
        proof {
            lemma_forward_copy_bytes(filled, start as int, start + 18, output.pos - match_length);
            lemma_match_bytes_disjoint(with_literals, offset as int, whole);
            assert(output@ =~= with_literals + with_literals.subrange(start as int, start + whole));
        }
        Ok(())
    } else {
        duplicate_overlapping_slice(output, offset, match_length)
    }
}

/// Appends a match that starts in the external dictionary: the part that lies in the
/// dictionary is spliced in, and what is left of the match is copied out of the output.
/// The offset has been checked against the history, and the sink has room for the match.
fn copy_match_from_dict(
    output: &mut Sink,
    ext_dict: &[u8],
    offset: usize,
    match_length: usize,
) -> (res: Result<(), DecompressError>)
    requires
        old(output).wf(),
        old(output).pos < offset <= ext_dict@.len() + old(output).pos,
        old(output).pos + match_length <= old(output).output@.len(),
    ensures
        final(output).wf(),
        final(output).output@.len() == old(output).output@.len(),
        final(final(output).output)@ == final(old(output).output)@,
        res == Ok::<(), DecompressError>(()),
        final(output).pos == old(output).pos + match_length,
        final(output)@ == old(output)@ + match_bytes(
            ext_dict@ + old(output)@,
            offset as int,
            match_length as int,
        ),
{
    let ghost before = output@;
    proof {
        lemma_splice_starts_match(
            ext_dict@,
            before,
            offset as int,
            match_length as int,
            output.capacity(),
        );
    }
    let copied = match copy_from_dict(output, ext_dict, offset, match_length) {
        Ok(copied) => copied,
        Err(e) => { return Err(e); },
    };
    if copied == match_length {
        return Ok(());
    }
    // The match runs on into the output; the offset still fits, since the cursor has
    // moved on by what was copied.
    proof {
        lemma_match_across_dictionary(
            ext_dict@,
            before,
            offset as int,
            match_length as int,
            copied as int,
        );
    }
    duplicate_slice(output, offset, match_length - copied)
}

/// Reads the literal length of the sequence whose token was just read and copies the
/// literals to the sink.
fn copy_literals(input: &[u8], input_pos: &mut usize, token: u8, output: &mut Sink) -> (res: Result<
    (),
    DecompressError,
>)
    requires
        old(output).wf(),
        1 <= *old(input_pos) <= input@.len(),
        token == input@[*old(input_pos) - 1],
    ensures
        final(output).wf(),
        final(output).output@.len() == old(output).output@.len(),
        final(final(output).output)@ == final(old(output).output)@,
        old(output).pos <= final(output).pos,
        final(output)@.subrange(0, old(output).pos as int) == old(output)@,
        match literal_stage(input@, old(output).capacity(), *old(input_pos) - 1, old(output)@) {
            Ok((end, out)) => res == Ok::<(), DecompressError>(()) && *final(input_pos) == end
                && end <= input@.len() && final(output)@ == out,
            Err(e) => res == Err::<(), DecompressError>(e) && final(output)@ == old(output)@,
        },
{
    assert(token >> 4 == token / 16) by (bit_vector);

    // A nibble of 15 says that length bytes follow the token.
    let mut literal_length = (token >> 4) as usize;
    if literal_length != 0 {
        if literal_length == 15 {
            let extra = match read_integer(input, input_pos) {
                Ok(extra) => extra,
                Err(e) => { return Err(e); },
            };
            // On a 32-bit machine the sum need not fit a `usize`.
            let total: u64 = 15 + extra as u64;
            if total > (input.len() - *input_pos) as u64 {
                return Err(DecompressError::LiteralOutOfBounds);
            }
            literal_length = total as usize;
        }
        if literal_length > input.len() - *input_pos {
            return Err(DecompressError::LiteralOutOfBounds);
        }
        match output.extend_from_slice(&input[*input_pos..*input_pos + literal_length]) {
            Ok(()) => {},
            Err(e) => { return Err(e); },
        }
        *input_pos = *input_pos + literal_length;
    }
    Ok(())
}

/// Reads the offset and the match length of the sequence with token `token` and appends
/// the match to the sink. The cursor stands at the offset bytes.
fn copy_match<const USE_DICT: bool>(
    input: &[u8],
    input_pos: &mut usize,
    token: u8,
    output: &mut Sink,
    ext_dict: &[u8],
) -> (res: Result<(), DecompressError>)
    requires
        old(output).wf(),
        !USE_DICT ==> ext_dict@.len() == 0,
        *old(input_pos) <= input@.len(),
    ensures
        final(output).wf(),
        final(output).output@.len() == old(output).output@.len(),
        final(final(output).output)@ == final(old(output).output)@,
        old(output).pos <= final(output).pos,
        final(output)@.subrange(0, old(output).pos as int) == old(output)@,
        match match_stage(
            input@,
            ext_dict@,
            old(output).capacity(),
            token,
            *old(input_pos) as int,
            old(output)@,
        ) {
            Ok((next, out)) => res == Ok::<(), DecompressError>(()) && *final(input_pos) == next
                && final(output)@ == out,
            Err(e) => res == Err::<(), DecompressError>(e) && final(output)@ == old(output)@,
        },
{
    let ghost dict = ext_dict@;
    let ghost before = output@;
    let capacity = output.capacity();
    let dict_len = ext_dict.len();
    assert(token & 0xF == token % 16) by (bit_vector);

    let offset = match read_u16(input, input_pos) {
        Ok(offset) => offset as usize,
        Err(e) => { return Err(e); },
    };

    // The match length starts at MINMATCH: shorter matches would not pay. A nibble of 15
    // says that length bytes follow. On a 32-bit machine the sum need not fit a `usize`.
    let mut long_match_length: u64 = (MINMATCH + (token & 0xF) as usize) as u64;
    if long_match_length == (MINMATCH + 15) as u64 {
        let extra = match read_integer(input, input_pos) {
            Ok(extra) => extra,
            Err(e) => { return Err(e); },
        };
        long_match_length = long_match_length + extra as u64;
    }
    let ghost whole = long_match_length as int;

    if offset == 0 || (offset > output.pos && offset - output.pos > dict_len) {
        return Err(DecompressError::OffsetOutOfBounds);
    }
    if long_match_length > (capacity - output.pos) as u64 {
        return Err(
            DecompressError::OutputTooSmall {
                expected: saturating_end(output.pos, long_match_length),
                actual: capacity,
            },
        );
    }
    let match_length = long_match_length as usize;

    if USE_DICT && offset > output.pos() {
        return copy_match_from_dict(output, ext_dict, offset, match_length);
    }
    // The match lies in the output decoded so far.
    proof {
        lemma_match_bytes_recent(dict, before, offset as int, whole);
    }
    duplicate_slice(output, offset, match_length)
}

/// The decode loop. `USE_DICT` says whether matches may reach into `ext_dict`; without it
/// the dictionary is empty and the splice is skipped.
#[verifier::rlimit(40)]
fn decompress_internal<const USE_DICT: bool>(
    input: &[u8],
    output: &mut Sink,
    ext_dict: &[u8],
) -> (res: Result<usize, DecompressError>)
    requires
        old(output).wf(),
        !USE_DICT ==> ext_dict@.len() == 0,
    ensures
        final(output).wf(),
        final(output).output@.len() == old(output).output@.len(),
        final(final(output).output)@ == final(old(output).output)@,
        old(output).pos <= final(output).pos,
        final(output)@.subrange(0, old(output).pos as int) == old(output)@,
        final(output)@ == written(input@, ext_dict@, old(output)@, old(output).capacity()),
        match decode(input@, ext_dict@, old(output)@, old(output).capacity()) {
            Ok(out) => (res matches Ok(written) && written == out.len() - old(output).pos)
                && final(output)@ == out,
            Err(e) => res == Err::<usize, DecompressError>(e),
        },
        res matches Ok(written) ==> final(output).pos == old(output).pos + written,
{
    let mut input_pos: usize = 0;
    let initial_output_pos = output.pos();
    let capacity = output.capacity();

    // Input positions up to here leave room to read 16 literal bytes and the offset,
    // output positions below here room to write 16 literal bytes and 18 match bytes.
    let safe_input_pos = input.len().saturating_sub(16 + 2);
    let safe_output_pos = capacity.saturating_sub(16 + 18);

    let ghost dict = ext_dict@;
    let ghost goal = decode(input@, dict, old(output)@, capacity);
    let ghost held = written(input@, dict, old(output)@, capacity);

    loop
        invariant_except_break
            input_pos <= input@.len(),
            decode_from(input@, dict, capacity, input_pos as int, output@) == goal,
            written_from(input@, dict, capacity, input_pos as int, output@) == held,
        invariant
            output.wf(),
            output.output@.len() == old(output).output@.len(),
            final(output.output)@ == final(old(output).output)@,
            capacity == old(output).output@.len(),
            dict == ext_dict@,
            !USE_DICT ==> dict.len() == 0,
            goal == decode(input@, dict, old(output)@, capacity),
            held == written(input@, dict, old(output)@, capacity),
            input@.len() <= usize::MAX,
            initial_output_pos == old(output).pos,
            initial_output_pos <= output.pos,
            output@.subrange(0, initial_output_pos as int) == old(output)@,
            safe_input_pos + 18 <= input@.len() || safe_input_pos == 0,
            safe_output_pos + 34 <= capacity || safe_output_pos == 0,
        ensures
            goal == Ok::<Seq<u8>, DecompressError>(output@),
            held == output@,
        decreases input@.len() - input_pos,
    {
        let ghost before = output@;
        proof {
            lemma_step_advances(input@, dict, capacity, input_pos as int, before);
        }

        // The token: literal length in its high nibble, match length in its low nibble.
        if input_pos >= input.len() {
            return Err(DecompressError::ExpectedAnotherByte);
        }
        let token = input[input_pos];
        input_pos = input_pos + 1;

        // Most sequences hold both lengths in the token and lie far from either end. The
        // comparison with `safe_output_pos` is strict, so that the test fails where the
        // subtraction saturated at zero.
        if does_token_fit(token) && input_pos <= safe_input_pos && output.pos() < safe_output_pos {
            match copy_sequence_fast::<USE_DICT>(input, &mut input_pos, token, output, ext_dict) {
                Ok(()) => {},
                Err(e) => { return Err(e); },
            }
            assert(output@.subrange(0, initial_output_pos as int) =~= before.subrange(
                0,
                initial_output_pos as int,
            ));
            continue;
        }

        match copy_literals(input, &mut input_pos, token, output) {
            Ok(()) => {},
            Err(e) => { return Err(e); },
        }
        assert(output@.subrange(0, initial_output_pos as int) =~= before.subrange(
            0,
            initial_output_pos as int,
        ));

        // A block ends with a sequence of literals only: the input is used up here.
        if input_pos >= input.len() {
            break;
        }
        let ghost with_literals = output@;
        match copy_match::<USE_DICT>(input, &mut input_pos, token, output, ext_dict) {
            Ok(()) => {},
            Err(e) => { return Err(e); },
        }
        assert(output@.subrange(0, initial_output_pos as int) =~= before.subrange(
            0,
            initial_output_pos as int,
        ));
    }
    Ok(output.pos() - initial_output_pos)
}

/// Decodes the block `input` into a new vector of exactly `uncompressed_size` bytes.
///
/// A block that decodes to fewer bytes is `UncompressedSizeDiffers`; one that would
/// decode to more is `OutputTooSmall`, reported at the first write that does not fit.
pub fn decompress(input: &[u8], uncompressed_size: usize) -> (res: Result<Vec<u8>, DecompressError>)
    ensures
        match decode_exact(input@, Seq::empty(), uncompressed_size) {
            Ok(out) => (res matches Ok(decoded) && decoded@ == out),
            Err(e) => (res matches Err(error) && error == e),
        },
        res matches Ok(decoded) ==> decoded@.len() == uncompressed_size,
{
    // Allocate a vector to contain the decompressed stream.
    let mut vec: Vec<u8> = Vec::with_capacity(uncompressed_size);
    vec.resize(decompress_sink_size(uncompressed_size), 0);
    let mut sink = Sink::new(vec.as_mut_slice(), 0);
    let decomp_len = match decompress_into(input, &mut sink) {
        Ok(decomp_len) => decomp_len,
        Err(e) => { return Err(e); },
    };
    if decomp_len != uncompressed_size {
        return Err(
            DecompressError::UncompressedSizeDiffers {
                expected: uncompressed_size,
                actual: decomp_len,
            },
        );
    }
    Ok(vec)
}

/// Decodes the block `input` into a new vector of exactly `uncompressed_size` bytes, with
/// `ext_dict` as the history that precedes the output.
pub fn decompress_with_dict(
    input: &[u8],
    uncompressed_size: usize,
    ext_dict: &[u8],
) -> (res: Result<Vec<u8>, DecompressError>)
    ensures
        match decode_exact(input@, ext_dict@, uncompressed_size) {
            Ok(out) => (res matches Ok(decoded) && decoded@ == out),
            Err(e) => (res matches Err(error) && error == e),
        },
        res matches Ok(decoded) ==> decoded@.len() == uncompressed_size,
{
    // Allocate a vector to contain the decompressed stream.
    let mut vec: Vec<u8> = Vec::with_capacity(uncompressed_size);
    vec.resize(decompress_sink_size(uncompressed_size), 0);
    let mut sink = Sink::new(vec.as_mut_slice(), 0);
    let decomp_len = match decompress_into_with_dict(input, &mut sink, ext_dict) {
        Ok(decomp_len) => decomp_len,
        Err(e) => { return Err(e); },
    };
    if decomp_len != uncompressed_size {
        return Err(
            DecompressError::UncompressedSizeDiffers {
                expected: uncompressed_size,
                actual: decomp_len,
            },
        );
    }
    Ok(vec)
}

/// Decodes a size-prefixed input into a new vector: the first four bytes are the size of
/// the output, little-endian, and the block follows them.
pub fn decompress_size_prepended(input: &[u8]) -> (res: Result<Vec<u8>, DecompressError>)
    ensures
        match decode_size_prepended(input@, Seq::empty()) {
            Ok(out) => (res matches Ok(decoded) && decoded@ == out),
            Err(e) => (res matches Err(error) && error == e),
        },
{
    let (uncompressed_size, input) = match uncompressed_size(input) {
        Ok(parts) => parts,
        Err(e) => { return Err(e); },
    };
    decompress(input, uncompressed_size)
}

/// Decodes a size-prefixed input into a new vector, with `ext_dict` as the history that
/// precedes the output.
pub fn decompress_size_prepended_with_dict(input: &[u8], ext_dict: &[u8]) -> (res: Result<
    Vec<u8>,
    DecompressError,
>)
    ensures
        match decode_size_prepended(input@, ext_dict@) {
            Ok(out) => (res matches Ok(decoded) && decoded@ == out),
            Err(e) => (res matches Err(error) && error == e),
        },
{
    let (uncompressed_size, input) = match uncompressed_size(input) {
        Ok(parts) => parts,
        Err(e) => { return Err(e); },
    };
    decompress_with_dict(input, uncompressed_size, ext_dict)
}

} // verus!
