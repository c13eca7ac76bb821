//! The sink: a caller-supplied output buffer with a write cursor.

use crate::bytes::{copy_within, overwrite, write_at};
use crate::error::DecompressError;
use crate::format::{match_bytes, output_too_small};
use crate::history::{lemma_match_bytes_disjoint, lemma_match_bytes_push, lemma_mod_period};
use vstd::prelude::*;

verus! {

/// `buf` after its bytes from `start` up to `end` are copied to `dst` one at a time, front
/// to back.
///
/// Where the destination starts after the source and overlaps it, bytes written early in
/// the copy are read again later in it, so the `dst - start` bytes before `dst` repeat.
/// Otherwise the bytes that the source held before the copy arrive unchanged.
pub open spec fn forward_copy(buf: Seq<u8>, start: int, end: int, dst: int) -> Seq<u8> {
    if start < dst {
        overwrite(buf, dst, match_bytes(buf.subrange(0, dst), dst - start, end - start))
    } else {
        overwrite(buf, dst, buf.subrange(start, end))
    }
}

/// What a forward copy leaves where: bytes outside the destination keep their value, and
/// a byte of the destination whose source lies before the destination is that source byte.
pub proof fn lemma_forward_copy_bytes(buf: Seq<u8>, start: int, end: int, dst: int)
    requires
        0 <= start <= end <= buf.len(),
        0 <= dst,
        dst + (end - start) <= buf.len(),
    ensures
        forward_copy(buf, start, end, dst).len() == buf.len(),
        forall|j: int|
            0 <= j < dst || dst + (end - start) <= j < buf.len() ==> #[trigger] forward_copy(
                buf,
                start,
                end,
                dst,
            )[j] == buf[j],
        forall|j: int|
            dst <= j < dst + (end - start) && j - dst + start < dst ==> #[trigger] forward_copy(
                buf,
                start,
                end,
                dst,
            )[j] == buf[j - dst + start],
{
    assert forall|j: int|
        dst <= j < dst + (end - start) && j - dst + start < dst implies #[trigger] forward_copy(
        buf,
        start,
        end,
        dst,
    )[j] == buf[j - dst + start] by {
        if start < dst {
            lemma_mod_period(j - dst, dst - start);
        }
    }
}

/// A fixed-capacity output buffer that is filled from the front.
///
/// The bytes before `pos` are the output written so far; that prefix is the sink's view.
/// What lies at and after `pos` is scratch space that the decoder may overwrite at any time.
///
/// The sink borrows its buffer. Every function that takes a `&mut Sink` promises
/// `final(final(sink).output)@ == final(old(sink).output)@`: the sink still stands for the
/// same loan, so what the lender finds in the buffer once the sink is gone is what the
/// sink held last.
pub struct Sink<'a> {
    /// The buffer that receives the output.
    pub output: &'a mut [u8],
    /// Number of bytes written so far.
    pub pos: usize,
}

impl<'a> View for Sink<'a> {
    type V = Seq<u8>;

    open spec fn view(&self) -> Seq<u8> {
        self.output@.subrange(0, self.pos as int)
    }
}

impl<'a> Sink<'a> {
    /// The cursor lies within the buffer, whose length is a `usize`.
    pub open spec fn wf(&self) -> bool {
        self.pos <= self.output@.len() <= usize::MAX
    }

    /// Number of bytes written so far.
    pub open spec fn spec_pos(&self) -> usize {
        self.pos
    }

    /// Size of the underlying buffer.
    pub open spec fn spec_capacity(&self) -> usize {
        self.output@.len() as usize
    }

    /// A sink over `output` whose first `pos` bytes count as already written.
    pub fn new(output: &'a mut [u8], pos: usize) -> (sink: Self)
        requires
            pos <= old(output)@.len(),
        ensures
            sink.wf(),
            sink.pos == pos,
            sink.output@ == old(output)@,
            final(sink.output)@ == final(output)@,
    {
        // Taking the length tells the verifier that it is a `usize`.
        let _ = output.len();
        Sink { output, pos }
    }

    /// Number of bytes written so far.
    #[verifier::when_used_as_spec(spec_pos)]
    pub fn pos(&self) -> (pos: usize)
        ensures
            pos == self.spec_pos(),
    {
        self.pos
    }

    /// Size of the underlying buffer.
    #[verifier::when_used_as_spec(spec_capacity)]
    pub fn capacity(&self) -> (capacity: usize)
        ensures
            capacity == self.spec_capacity(),
    {
        self.output.len()
    }

    /// The output written so far.
    pub fn as_slice(&self) -> (written: &[u8])
        requires
            self.wf(),
        ensures
            written@ == self@,
    {
        let written: &[u8] = &self.output[0..self.pos];
        written
    }

    /// Moves the cursor to `new_pos`. The buffer is untouched, so moving forward makes
    /// whatever the scratch space held part of the output.
    pub fn set_pos(&mut self, new_pos: usize)
        requires
            old(self).wf(),
            new_pos <= old(self).output@.len(),
        ensures
            final(self).wf(),
            final(self).pos == new_pos,
            final(self).output@ == old(self).output@,
            final(final(self).output)@ == final(old(self).output)@,
    {
        self.pos = new_pos;
    }

    /// Copies the bytes from `start` up to `end` of the buffer to `dst`, one at a time,
    /// front to back. The cursor does not move.
    pub fn copy_within(&mut self, start: usize, end: usize, dst: usize)
        requires
            old(self).wf(),
            start <= end <= old(self).output@.len(),
            dst + (end - start) <= old(self).output@.len(),
        ensures
            final(self).wf(),
            final(self).pos == old(self).pos,
            final(self).output@ == forward_copy(
                old(self).output@,
                start as int,
                end as int,
                dst as int,
            ),
            final(final(self).output)@ == final(old(self).output)@,
    {
        let ghost before = self.output@;
        if dst <= start || end <= dst {
            // The source is not overwritten before it is read: one block move will do.
            proof {
                if start < dst {
                    lemma_match_bytes_disjoint(
                        before.subrange(0, dst as int),
                        dst - start,
                        end - start,
                    );
                }
            }
            copy_within(self.output, start, end, dst);
        } else {
            let ghost history = before.subrange(0, dst as int);
            let ghost distance = dst - start;
            let len = end - start;
            let mut k: usize = 0;
            while k < len
                invariant
                    self.pos == old(self).pos,
                    before == old(self).output@,
                    final(self.output)@ == final(old(self).output)@,
                    start < dst < end <= before.len(),
                    dst + (end - start) <= before.len() <= usize::MAX,
                    len == end - start,
                    history == before.subrange(0, dst as int),
                    distance == dst - start,
                    k <= len,
                    self.output@ == overwrite(
                        before,
                        dst as int,
                        match_bytes(history, distance, k as int),
                    ),
                decreases len - k,
            {
                let byte = self.output[start + k];
                self.output[dst + k] = byte;
                proof {
                    // The byte read lies `distance` places before the one written.
                    lemma_match_bytes_push(history, distance, k as int);
                }
                k = k + 1;
            }
        }
    }

    /// Appends one byte, or fails with `OutputTooSmall` if the sink is full.
    pub fn push(&mut self, byte: u8) -> (res: Result<(), DecompressError>)
        requires
            old(self).wf(),
        ensures
            final(self).wf(),
            final(self).output@.len() == old(self).output@.len(),
            final(final(self).output)@ == final(old(self).output)@,
            old(self).pos < old(self).output@.len() ==> res == Ok::<(), DecompressError>(())
                && final(self).pos == old(self).pos + 1
                && final(self).output@ == old(self).output@.update(old(self).pos as int, byte)
                && final(self)@ == old(self)@.push(byte),
            old(self).pos >= old(self).output@.len() ==> res == Err::<(), DecompressError>(
                output_too_small(old(self).pos + 1, old(self).capacity()),
            ) && final(self).pos == old(self).pos && final(self).output@ == old(self).output@,
    {
        let capacity = self.output.len();
        if self.pos >= capacity {
            return Err(
                DecompressError::OutputTooSmall {
                    expected: self.pos.saturating_add(1),
                    actual: capacity,
                },
            );
        }
        self.output[self.pos] = byte;
        self.pos = self.pos + 1;
        Ok(())
    }

    /// Appends `data`, or fails with `OutputTooSmall` and writes nothing if it does not fit.
    pub fn extend_from_slice(&mut self, data: &[u8]) -> (res: Result<(), DecompressError>)
        requires
            old(self).wf(),
        ensures
            final(self).wf(),
            final(self).output@.len() == old(self).output@.len(),
            final(final(self).output)@ == final(old(self).output)@,
            old(self).pos + data@.len() <= old(self).output@.len() ==> res == Ok::<
                (),
                DecompressError,
            >(()) && final(self).pos == old(self).pos + data@.len() && final(self).output@
                == overwrite(old(self).output@, old(self).pos as int, data@) && final(self)@
                == old(self)@ + data@,
            old(self).pos + data@.len() > old(self).output@.len() ==> res == Err::<
                (),
                DecompressError,
            >(output_too_small(old(self).pos + data@.len(), old(self).capacity()))
                && final(self).pos == old(self).pos && final(self).output@ == old(self).output@,
    {
        let capacity = self.output.len();
        if data.len() > capacity - self.pos {
            return Err(
                DecompressError::OutputTooSmall {
                    expected: self.pos.saturating_add(data.len()),
                    actual: capacity,
                },
            );
        }
        write_at(self.output, self.pos, data);
        self.pos = self.pos + data.len();
        Ok(())
    }
}

} // verus!
