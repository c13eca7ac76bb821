//! Blocks as data: the sequences that a block is made of, the bytes that encode them and
//! the bytes that they stand for, with the proof that decoding undoes encoding.
//!
//! An encoder is free in how it cuts its input into literals and matches. Whatever it
//! chooses, it emits the encoding of some `Block`, and the round-trip theorem says that
//! the decoder gives back what that block stands for.

use crate::error::DecompressError;
use crate::format::{
    decode, decode_exact, decode_from, literal_nibble, literal_stage, lsic_sum, match_bytes,
    match_nibble, match_stage, step, u16_le, Step, MINMATCH, NIBBLE_MAX,
};
use vstd::prelude::*;

verus! {

/// A sequence that carries a match: literals, then `match_len` bytes at distance `offset`.
pub struct Sequence {
    pub literals: Seq<u8>,
    pub offset: int,
    pub match_len: int,
}

/// A block: sequences with a match each, then the literals of the last sequence.
pub struct Block {
    pub sequences: Seq<Sequence>,
    pub last_literals: Seq<u8>,
}

/// Largest length that a nibble and its length bytes can express.
pub open spec fn max_extended() -> int {
    NIBBLE_MAX + u32::MAX
}

/// The length bytes for `n`: a byte of 255 for every full 255 in `n`, then the rest.
pub open spec fn length_bytes(n: int) -> Seq<u8>
    decreases n,
{
    if n < 255 {
        seq![n as u8]
    } else {
        seq![255u8] + length_bytes(n - 255)
    }
}

/// The nibble that stands for `n` in the token.
pub open spec fn nibble(n: int) -> int {
    if n < NIBBLE_MAX {
        n
    } else {
        NIBBLE_MAX as int
    }
}

/// The length bytes that follow where the nibble cannot hold `n`.
pub open spec fn extension(n: int) -> Seq<u8> {
    if n < NIBBLE_MAX {
        Seq::empty()
    } else {
        length_bytes(n - NIBBLE_MAX)
    }
}

/// The token for `lit_len` literals and a match of `MINMATCH + match_extra` bytes.
pub open spec fn token(lit_len: int, match_extra: int) -> u8 {
    (16 * nibble(lit_len) + nibble(match_extra)) as u8
}

/// The first part of a sequence: token, literal length bytes, literals.
pub open spec fn encode_literals(literals: Seq<u8>, match_extra: int) -> Seq<u8> {
    seq![token(literals.len() as int, match_extra)] + extension(literals.len() as int) + literals
}

/// The second part of a sequence: offset, little-endian, and match length bytes.
pub open spec fn encode_match(offset: int, match_len: int) -> Seq<u8> {
    seq![(offset % 256) as u8, (offset / 256) as u8] + extension(match_len - MINMATCH)
}

/// The bytes that encode a sequence with a match.
pub open spec fn encode_sequence(s: Sequence) -> Seq<u8> {
    encode_literals(s.literals, s.match_len - MINMATCH) + encode_match(s.offset, s.match_len)
}

/// The bytes that encode the sequences of `block` from the `from`-th on.
pub open spec fn encode_from(block: Block, from: int) -> Seq<u8>
    decreases block.sequences.len() - from,
{
    if from < 0 || from >= block.sequences.len() {
        encode_literals(block.last_literals, 0)
    } else {
        encode_sequence(block.sequences[from]) + encode_from(block, from + 1)
    }
}

/// The bytes that encode `block`.
pub open spec fn encode(block: Block) -> Seq<u8> {
    encode_from(block, 0)
}

/// What `out` becomes when the sequences of `block` from the `from`-th on are applied to
/// it, with `dict` before it as history.
pub open spec fn expand_from(block: Block, dict: Seq<u8>, from: int, out: Seq<u8>) -> Seq<u8>
    decreases block.sequences.len() - from,
{
    if from < 0 || from >= block.sequences.len() {
        out + block.last_literals
    } else {
        let s = block.sequences[from];
        let with_literals = out + s.literals;
        expand_from(
            block,
            dict,
            from + 1,
            with_literals + match_bytes(dict + with_literals, s.offset, s.match_len),
        )
    }
}

/// The bytes that `block` stands for after `prefix`, with `dict` before it as history.
pub open spec fn expand(block: Block, dict: Seq<u8>, prefix: Seq<u8>) -> Seq<u8> {
    expand_from(block, dict, 0, prefix)
}

/// The sequences of `block` from the `from`-th on can be encoded and applied to `out`:
/// lengths are within what the format can express, matches have at least `MINMATCH`
/// bytes, and every offset fits in 16 bits and lies within the history at its match.
pub open spec fn well_formed_from(block: Block, dict: Seq<u8>, from: int, out: Seq<u8>) -> bool
    decreases block.sequences.len() - from,
{
    if from < 0 || from >= block.sequences.len() {
        block.last_literals.len() <= max_extended()
    } else {
        let s = block.sequences[from];
        let with_literals = out + s.literals;
        &&& s.literals.len() <= max_extended()
        &&& MINMATCH <= s.match_len <= MINMATCH + max_extended()
        &&& 1 <= s.offset <= 0xFFFF
        &&& s.offset <= dict.len() + with_literals.len()
        &&& well_formed_from(
            block,
            dict,
            from + 1,
            with_literals + match_bytes(dict + with_literals, s.offset, s.match_len),
        )
    }
}

/// `block` can be encoded and applied to `prefix` with `dict` as history.
pub open spec fn well_formed(block: Block, dict: Seq<u8>, prefix: Seq<u8>) -> bool {
    well_formed_from(block, dict, 0, prefix)
}

/// The token holds the two nibbles it was made of.
pub proof fn lemma_token_nibbles(lit_len: int, match_extra: int)
    requires
        0 <= lit_len,
        0 <= match_extra,
    ensures
        literal_nibble(token(lit_len, match_extra)) == nibble(lit_len),
        match_nibble(token(lit_len, match_extra)) == nibble(match_extra),
{
}

/// Length bytes are read back as the number they were written for.
pub proof fn lemma_lsic_reads_length_bytes(input: Seq<u8>, pos: int, acc: int, n: int)
    requires
        0 <= pos,
        0 <= n,
        acc + n <= u32::MAX,
        pos + length_bytes(n).len() <= input.len(),
        input.subrange(pos, pos + length_bytes(n).len()) == length_bytes(n),
    ensures
        lsic_sum(input, pos, acc) == Ok::<(int, int), DecompressError>(
            (acc + n, pos + length_bytes(n).len()),
        ),
    decreases n,
{
    let written = length_bytes(n);
    assert(input[pos] == input.subrange(pos, pos + written.len())[0]);
    if n >= 255 {
        let rest = length_bytes(n - 255);
        assert(written =~= seq![255u8] + rest);
        assert(input.subrange(pos + 1, pos + 1 + rest.len()) =~= rest) by {
            assert forall|k: int| 0 <= k < rest.len() implies #[trigger] input.subrange(
                pos + 1,
                pos + 1 + rest.len(),
            )[k] == rest[k] by {
                assert(input.subrange(pos, pos + written.len())[k + 1] == written[k + 1]);
            }
        }
        lemma_lsic_reads_length_bytes(input, pos + 1, acc + 255, n - 255);
    }
}

/// The first part of an encoded sequence decodes to its literals: where the input holds
/// `encode_literals(literals, match_extra)` at `pos` and the sink has room, the literal
/// stage appends `literals` and ends right after them.
pub proof fn lemma_literal_stage_decodes(
    input: Seq<u8>,
    capacity: usize,
    pos: int,
    out: Seq<u8>,
    literals: Seq<u8>,
    match_extra: int,
)
    requires
        0 <= pos,
        0 <= match_extra,
        literals.len() <= max_extended(),
        out.len() + literals.len() <= capacity,
        pos + encode_literals(literals, match_extra).len() <= input.len(),
        input.subrange(pos, pos + encode_literals(literals, match_extra).len()) == encode_literals(
            literals,
            match_extra,
        ),
    ensures
        input[pos] == token(literals.len() as int, match_extra),
        literal_stage(input, capacity, pos, out) == Ok::<(int, Seq<u8>), DecompressError>(
            (pos + encode_literals(literals, match_extra).len(), out + literals),
        ),
{
    let len = literals.len() as int;
    let written = encode_literals(literals, match_extra);
    let ext = extension(len);
    let here = input.subrange(pos, pos + written.len());
    lemma_token_nibbles(len, match_extra);
    assert(input[pos] == here[0]);
    assert(written[0] == token(len, match_extra));
    let start = pos + 1 + ext.len();
    if len >= NIBBLE_MAX {
        assert(input.subrange(pos + 1, pos + 1 + ext.len()) =~= ext) by {
            assert forall|k: int| 0 <= k < ext.len() implies #[trigger] input.subrange(
                pos + 1,
                pos + 1 + ext.len(),
            )[k] == ext[k] by {
                assert(here[k + 1] == written[k + 1]);
            }
        }
        lemma_lsic_reads_length_bytes(input, pos + 1, 0, len - NIBBLE_MAX);
    }
    assert(input.subrange(start, start + len) =~= literals) by {
        assert forall|k: int| 0 <= k < len implies #[trigger] input.subrange(start, start + len)[k]
            == literals[k] by {
            assert(here[1 + ext.len() + k] == written[1 + ext.len() + k]);
        }
    }
}

/// The second part of an encoded sequence decodes to its match: where the input holds
/// `encode_match(offset, match_len)` at `pos`, the token carries the nibble of the match
/// length, the offset lies within the history and the sink has room, the match stage
/// appends the match and ends right after its length bytes.
pub proof fn lemma_match_stage_decodes(
    input: Seq<u8>,
    dict: Seq<u8>,
    capacity: usize,
    token: u8,
    pos: int,
    out: Seq<u8>,
    offset: int,
    match_len: int,
)
    requires
        0 <= pos,
        MINMATCH <= match_len <= MINMATCH + max_extended(),
        match_nibble(token) == nibble(match_len - MINMATCH),
        1 <= offset <= 0xFFFF,
        offset <= dict.len() + out.len(),
        out.len() + match_len <= capacity,
        pos + encode_match(offset, match_len).len() <= input.len(),
        input.subrange(pos, pos + encode_match(offset, match_len).len()) == encode_match(
            offset,
            match_len,
        ),
    ensures
        match_stage(input, dict, capacity, token, pos, out) == Ok::<
            (int, Seq<u8>),
            DecompressError,
        >(
            (
                pos + encode_match(offset, match_len).len(),
                out + match_bytes(dict + out, offset, match_len),
            ),
        ),
{
    let extra = match_len - MINMATCH;
    let written = encode_match(offset, match_len);
    let ext = extension(extra);
    let here = input.subrange(pos, pos + written.len());
    assert(input[pos] == here[0]);
    assert(input[pos + 1] == here[1]);
    assert(written[0] == (offset % 256) as u8);
    assert(written[1] == (offset / 256) as u8);
    assert(u16_le(input, pos) == offset);
    if extra >= NIBBLE_MAX {
        assert(input.subrange(pos + 2, pos + 2 + ext.len()) =~= ext) by {
            assert forall|k: int| 0 <= k < ext.len() implies #[trigger] input.subrange(
                pos + 2,
                pos + 2 + ext.len(),
            )[k] == ext[k] by {
                assert(here[k + 2] == written[k + 2]);
            }
        }
        lemma_lsic_reads_length_bytes(input, pos + 2, 0, extra - NIBBLE_MAX);
    }
}

/// Applying sequences only appends.
pub proof fn lemma_expand_appends(block: Block, dict: Seq<u8>, from: int, out: Seq<u8>)
    ensures
        out.len() <= expand_from(block, dict, from, out).len(),
    decreases block.sequences.len() - from,
{
    if 0 <= from < block.sequences.len() {
        let s = block.sequences[from];
        let with_literals = out + s.literals;
        lemma_expand_appends(
            block,
            dict,
            from + 1,
            with_literals + match_bytes(dict + with_literals, s.offset, s.match_len),
        );
    }
}

/// Decoding undoes encoding, from any sequence on: where the input holds the encoding
/// of the sequences of `block` from the `from`-th on after `head`, decoding from there
/// yields what those sequences make of `out`.
pub proof fn lemma_round_trip_from(
    block: Block,
    dict: Seq<u8>,
    capacity: usize,
    from: int,
    head: Seq<u8>,
    out: Seq<u8>,
)
    requires
        0 <= from <= block.sequences.len(),
        well_formed_from(block, dict, from, out),
        expand_from(block, dict, from, out).len() <= capacity,
    ensures
        decode_from(
            head + encode_from(block, from),
            dict,
            capacity,
            head.len() as int,
            out,
        ) == Ok::<Seq<u8>, DecompressError>(expand_from(block, dict, from, out)),
    decreases block.sequences.len() - from,
{
    let input = head + encode_from(block, from);
    let pos = head.len() as int;
    if from >= block.sequences.len() {
        let written = encode_literals(block.last_literals, 0);
        assert(input.subrange(pos, pos + written.len()) =~= written);
        lemma_literal_stage_decodes(input, capacity, pos, out, block.last_literals, 0);
    } else {
        let s = block.sequences[from];
        let first = encode_literals(s.literals, s.match_len - MINMATCH);
        let second = encode_match(s.offset, s.match_len);
        let rest = encode_from(block, from + 1);
        let with_literals = out + s.literals;
        let with_match = with_literals + match_bytes(dict + with_literals, s.offset, s.match_len);
        lemma_expand_appends(block, dict, from + 1, with_match);
        assert(input =~= head + first + second + rest);
        assert(input.subrange(pos, pos + first.len()) =~= first);
        lemma_literal_stage_decodes(
            input,
            capacity,
            pos,
            out,
            s.literals,
            s.match_len - MINMATCH,
        );
        let end = pos + first.len();
        assert(input.subrange(end, end + second.len()) =~= second);
        lemma_token_nibbles(s.literals.len() as int, s.match_len - MINMATCH);
        lemma_match_stage_decodes(
            input,
            dict,
            capacity,
            input[pos],
            end,
            with_literals,
            s.offset,
            s.match_len,
        );
        let next = end + second.len();
        assert(step(input, dict, capacity, pos, out) == Step::Continue { next, out: with_match });
        lemma_round_trip_from(block, dict, capacity, from + 1, head + first + second, with_match);
        assert(input =~= (head + first + second) + rest);
    }
}

/// Decoding undoes encoding: the encoding of a well-formed block decodes, in any sink
/// with room for it, to what the block stands for.
pub proof fn lemma_round_trip_into(block: Block, dict: Seq<u8>, prefix: Seq<u8>, capacity: usize)
    requires
        well_formed(block, dict, prefix),
        expand(block, dict, prefix).len() <= capacity,
    ensures
        decode(encode(block), dict, prefix, capacity) == Ok::<Seq<u8>, DecompressError>(
            expand(block, dict, prefix),
        ),
{
    lemma_round_trip_from(block, dict, capacity, 0, Seq::empty(), prefix);
    assert(Seq::<u8>::empty() + encode_from(block, 0) =~= encode(block));
}

/// Round trip: the encoding of a well-formed block, decoded with the length of the plain
/// bytes as announced size, yields the plain bytes.
pub proof fn lemma_round_trip(block: Block, dict: Seq<u8>, size: usize)
    requires
        well_formed(block, dict, Seq::empty()),
        expand(block, dict, Seq::empty()).len() == size,
    ensures
        decode_exact(encode(block), dict, size) == Ok::<Seq<u8>, DecompressError>(
            expand(block, dict, Seq::empty()),
        ),
{
    lemma_round_trip_into(block, dict, Seq::empty(), size);
}

} // verus!
