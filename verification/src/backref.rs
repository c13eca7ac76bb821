//! Back-references: the dictionary splicer and the match copier.

use crate::bytes::{fill_at, repeated};
use crate::error::DecompressError;
use crate::format::{match_bytes, output_too_small};
use crate::history::{lemma_match_bytes_disjoint, lemma_match_bytes_push, lemma_match_bytes_run};
use crate::sink::{lemma_forward_copy_bytes, Sink};
use vstd::prelude::*;

verus! {

/// What splicing the match `(offset, match_length)` out of the dictionary makes of a sink
/// of `capacity` bytes that holds `out`, where the offset reaches back past the start of
/// the output: the number of bytes spliced in and the output with them appended.
///
/// The match starts `offset - out.len()` bytes before the end of `dict`; more than `dict`
/// holds is `OffsetOutOfBounds`. It is followed to the end of the dictionary or to its
/// own end, whichever comes first.
pub open spec fn splice(
    dict: Seq<u8>,
    out: Seq<u8>,
    offset: int,
    match_length: int,
    capacity: usize,
) -> Result<(int, Seq<u8>), DecompressError> {
    let behind = offset - out.len();
    let copied = if match_length < behind {
        match_length
    } else {
        behind
    };
    if behind > dict.len() {
        Err(DecompressError::OffsetOutOfBounds)
    } else if out.len() + copied > capacity {
        Err(output_too_small(out.len() + copied, capacity))
    } else {
        Ok((copied, out + dict.subrange(dict.len() - behind, dict.len() - behind + copied)))
    }
}

/// What is spliced in is the start of the match: its first bytes, as many as lie in the
/// dictionary.
pub proof fn lemma_splice_starts_match(
    dict: Seq<u8>,
    out: Seq<u8>,
    offset: int,
    match_length: int,
    capacity: usize,
)
    requires
        0 <= match_length,
        out.len() < offset,
    ensures
        splice(dict, out, offset, match_length, capacity) matches Ok((copied, spliced)) ==> 0
            <= copied <= match_length && (copied < match_length ==> copied == offset - out.len())
            && spliced == out + match_bytes(dict + out, offset, copied),
{
    if let Ok((copied, _)) = splice(dict, out, offset, match_length, capacity) {
        lemma_match_bytes_disjoint(dict + out, offset, copied);
    }
}

/// Copies the part of a match that lies in the external dictionary to the sink, for a
/// match whose offset reaches back past the start of the output.
///
/// Returns the number of bytes copied. If that is less than `match_length`, the rest of
/// the match lies in the output and is copied with the same offset. Nothing is written
/// on failure.
pub fn copy_from_dict(
    output: &mut Sink,
    ext_dict: &[u8],
    offset: usize,
    match_length: usize,
) -> (res: Result<usize, DecompressError>)
    requires
        old(output).wf(),
        offset > old(output).pos,
    ensures
        final(output).wf(),
        final(output).output@.len() == old(output).output@.len(),
        final(final(output).output)@ == final(old(output).output)@,
        match splice(
            ext_dict@,
            old(output)@,
            offset as int,
            match_length as int,
            old(output).capacity(),
        ) {
            Ok((copied, spliced)) => res == Ok::<usize, DecompressError>(copied as usize)
                && final(output).pos == old(output).pos + copied && final(output)@ == spliced,
            Err(e) => res == Err::<usize, DecompressError>(e)
                && final(output).pos == old(output).pos
                && final(output).output@ == old(output).output@,
        },
{
    let behind = offset - output.pos;
    if behind > ext_dict.len() {
        return Err(DecompressError::OffsetOutOfBounds);
    }
    let dict_offset = ext_dict.len() - behind;
    // The match may run on past the end of the dictionary, into the output.
    let dict_match_length = if match_length < behind {
        match_length
    } else {
        behind
    };
    let ext_match: &[u8] = &ext_dict[dict_offset..dict_offset + dict_match_length];
    match output.extend_from_slice(ext_match) {
        Ok(()) => Ok(dict_match_length),
        Err(e) => Err(e),
    }
}

/// Appends a match that lies wholly in the output: `match_length` bytes, each the byte
/// `offset` places before it.
///
/// An offset of zero, or one that reaches back before the start of the output, is
/// `OffsetOutOfBounds`, and nothing is written. The sink must have room for the match.
pub fn duplicate_slice(output: &mut Sink, offset: usize, match_length: usize) -> (res: Result<
    (),
    DecompressError,
>)
    requires
        old(output).wf(),
        old(output).pos + match_length <= old(output).output@.len(),
    ensures
        final(output).wf(),
        final(output).output@.len() == old(output).output@.len(),
        final(final(output).output)@ == final(old(output).output)@,
        offset == 0 || offset > old(output).pos ==> res == Err::<(), DecompressError>(
            DecompressError::OffsetOutOfBounds,
        ) && final(output).pos == old(output).pos && final(output).output@ == old(output).output@,
        1 <= offset <= old(output).pos ==> res == Ok::<(), DecompressError>(()) && final(output).pos
            == old(output).pos + match_length && final(output)@ == old(output)@ + match_bytes(
            old(output)@,
            offset as int,
            match_length as int,
        ),
{
    if match_length > offset {
        return duplicate_overlapping_slice(output, offset, match_length);
    }
    if offset == 0 || offset > output.pos {
        return Err(DecompressError::OffsetOutOfBounds);
    }
    let start = output.pos - offset;
    let output_end = output.pos + match_length;
    let ghost history = output@;
    let ghost before = output.output@;
    proof {
        lemma_match_bytes_disjoint(history, offset as int, match_length as int);
    }
    if output.output.len() - output_end >= 16 - 1 {
        // Room to copy in blocks of 16: the last block may write up to 15 bytes past the
        // end of the match, into scratch space.
        let mut i = start;
        while i < start + match_length
            invariant
                output.wf(),
                output.output@.len() == before.len(),
                final(output.output)@ == final(old(output).output)@,
                before == old(output).output@,
                history == old(output)@,
                start + offset == old(output).pos,
                output_end == old(output).pos + match_length,
                output_end + 15 <= before.len(),
                match_length <= offset,
                start <= i,
                i < start + match_length + 16,
                output.pos == old(output).pos + (i - start),
                output.output@.subrange(0, old(output).pos as int) == history,
                forall|j: int|
                    old(output).pos <= j < output_end && j < output.pos
                        ==> #[trigger] output.output@[j] == history[j - offset],
            decreases start + match_length + 16 - i,
        {
            let ghost current = output.output@;
            output.copy_within(i, i + 16, output.pos);
            proof {
                lemma_forward_copy_bytes(current, i as int, i + 16, output.pos as int);
            }
            assert forall|j: int|
                old(output).pos <= j < output_end && j < output.pos + 16
                    implies #[trigger] output.output@[j] == history[j - offset] by {
                // Bytes before the block were there already; those in it come from
                // `offset` places back, which lies in the history.
            }
            output.pos = output.pos + 16;
            i = i + 16;
        }
    } else {
        output.copy_within(start, start + match_length, output.pos);
        proof {
            lemma_forward_copy_bytes(before, start as int, start + match_length, output.pos as int);
        }
    }
    output.set_pos(output_end);
    assert(output@ =~= history + history.subrange(start as int, start + match_length)) by {
        assert forall|j: int|
            old(output).pos <= j < output_end implies #[trigger] output.output@[j] == history[j
            - offset] by {
        }
    }
    Ok(())
}

/// Appends a match whose source may overlap the bytes being written: each byte copied
/// can itself be the source of a later one.
///
/// At offset 1 the last byte of the output is repeated `match_length` times; otherwise
/// the bytes are copied one at a time, front to back. An offset of zero, or one that
/// reaches back before the start of the output, is `OffsetOutOfBounds`, and nothing is
/// written. The sink must have room for the match.
pub fn duplicate_overlapping_slice(sink: &mut Sink, offset: usize, match_length: usize) -> (res:
    Result<(), DecompressError>)
    requires
        old(sink).wf(),
        old(sink).pos + match_length <= old(sink).output@.len(),
    ensures
        final(sink).wf(),
        final(sink).output@.len() == old(sink).output@.len(),
        final(final(sink).output)@ == final(old(sink).output)@,
        offset == 0 || offset > old(sink).pos ==> res == Err::<(), DecompressError>(
            DecompressError::OffsetOutOfBounds,
        ) && final(sink).pos == old(sink).pos && final(sink).output@ == old(sink).output@,
        1 <= offset <= old(sink).pos ==> res == Ok::<(), DecompressError>(()) && final(sink).pos
            == old(sink).pos + match_length && final(sink)@ == old(sink)@ + match_bytes(
            old(sink)@,
            offset as int,
            match_length as int,
        ),
{
    if offset == 0 || offset > sink.pos {
        return Err(DecompressError::OffsetOutOfBounds);
    }
    let start = sink.pos - offset;
    let ghost history = sink@;
    if offset == 1 {
        let val = sink.as_slice()[start];
        let dest = sink.pos;
        fill_at(sink.output, dest, match_length, val);
        sink.pos = sink.pos + match_length;
        proof {
            lemma_match_bytes_run(history, match_length as int);
        }
    } else {
        let end = start + match_length;
        let mut i = start;
        while i < end
            invariant
                sink.wf(),
                sink.output@.len() == old(sink).output@.len(),
                final(sink.output)@ == final(old(sink).output)@,
                history == old(sink)@,
                1 <= offset <= old(sink).pos,
                start + offset == old(sink).pos,
                end == start + match_length,
                old(sink).pos + match_length <= old(sink).output@.len(),
                start <= i <= end,
                sink.pos == old(sink).pos + (i - start),
                sink@ == history + match_bytes(history, offset as int, i - start),
            decreases end - i,
        {
            let b = sink.as_slice()[i];
            proof {
                lemma_match_bytes_push(history, offset as int, i - start);
            }
            match sink.push(b) {
                Ok(()) => {},
                Err(e) => { return Err(e); },
            }
            i = i + 1;
        }
    }
    Ok(())
}

} // verus!
