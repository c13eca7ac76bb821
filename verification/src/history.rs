//! Facts about `match_bytes`: how a match relates to the history it copies from.

use crate::bytes::repeated;
use crate::format::match_bytes;
use vstd::arithmetic::div_mod::{
    lemma_mod_pos_bound, lemma_mod_sub_multiples_vanish, lemma_small_mod,
};
use vstd::prelude::*;

verus! {

/// How `k % offset` unfolds: it is `k` itself below `offset` and does not change when
/// `offset` is taken off `k`.
pub proof fn lemma_mod_period(k: int, offset: int)
    requires
        0 <= k,
        0 < offset,
    ensures
        0 <= k % offset < offset,
        k < offset ==> k % offset == k,
        k >= offset ==> k % offset == (k - offset) % offset,
{
    lemma_mod_pos_bound(k, offset);
    if k < offset {
        lemma_small_mod(k as nat, offset as nat);
    } else {
        lemma_mod_sub_multiples_vanish(k, offset);
    }
}

/// A match is self-referential: its byte `len` is the byte `offset` places back in the
/// history extended by the first `len` bytes of the match.
pub proof fn lemma_match_bytes_push(history: Seq<u8>, offset: int, len: int)
    requires
        0 < offset <= history.len(),
        0 <= len,
    ensures
        match_bytes(history, offset, len + 1) == match_bytes(history, offset, len).push(
            (history + match_bytes(history, offset, len))[history.len() + len - offset],
        ),
{
    lemma_mod_period(len, offset);
    if len >= offset {
        lemma_mod_period(len - offset, offset);
    }
}

/// A match no longer than its offset is a plain copy out of the history.
pub proof fn lemma_match_bytes_disjoint(history: Seq<u8>, offset: int, len: int)
    requires
        0 <= len <= offset <= history.len(),
    ensures
        match_bytes(history, offset, len) == history.subrange(
            history.len() - offset,
            history.len() - offset + len,
        ),
{
    let copy = history.subrange(history.len() - offset, history.len() - offset + len);
    assert forall|k: int| 0 <= k < len implies #[trigger] match_bytes(history, offset, len)[k]
        == copy[k] by {
        lemma_mod_period(k, offset);
    }
}

/// A match at offset 1 repeats the last byte of the history.
pub proof fn lemma_match_bytes_run(history: Seq<u8>, len: int)
    requires
        0 < history.len(),
        0 <= len,
    ensures
        match_bytes(history, 1, len) == repeated(history[history.len() - 1], len),
{
    let run = repeated(history[history.len() - 1], len);
    assert forall|k: int| 0 <= k < len implies #[trigger] match_bytes(history, 1, len)[k]
        == run[k] by {
        lemma_mod_period(k, 1);
    }
}

/// Only the last `offset` bytes of the history matter to a match.
pub proof fn lemma_match_bytes_recent(older: Seq<u8>, recent: Seq<u8>, offset: int, len: int)
    requires
        0 < offset <= recent.len(),
        0 <= len,
    ensures
        match_bytes(older + recent, offset, len) == match_bytes(recent, offset, len),
{
    assert forall|k: int| 0 <= k < len implies #[trigger] match_bytes(
        older + recent,
        offset,
        len,
    )[k] == match_bytes(recent, offset, len)[k] by {
        lemma_mod_period(k, offset);
    }
}

/// A match may be produced in two parts: once the first `first` bytes are appended to the
/// history, the rest is a match with the same offset.
pub proof fn lemma_match_bytes_split(history: Seq<u8>, offset: int, first: int, rest: int)
    requires
        0 < offset <= history.len(),
        0 <= first,
        0 <= rest,
    ensures
        match_bytes(history, offset, first + rest) == match_bytes(history, offset, first)
            + match_bytes(history + match_bytes(history, offset, first), offset, rest),
    decreases rest,
{
    if rest > 0 {
        // The last byte of the whole match and the last byte of its second part are the
        // same byte of the same extended history.
        let extended = history + match_bytes(history, offset, first);
        lemma_match_bytes_split(history, offset, first, rest - 1);
        lemma_match_bytes_push(history, offset, first + rest - 1);
        lemma_match_bytes_push(extended, offset, rest - 1);
    }
}

/// A match that starts in the dictionary and runs on into the output: after the first
/// `copied` bytes are appended to the output, the rest is a match within the output alone.
pub proof fn lemma_match_across_dictionary(
    dict: Seq<u8>,
    out: Seq<u8>,
    offset: int,
    len: int,
    copied: int,
)
    requires
        0 < offset <= dict.len() + out.len(),
        0 <= copied <= len,
        offset <= out.len() + copied,
    ensures
        out + match_bytes(dict + out, offset, len) == (out + match_bytes(
            dict + out,
            offset,
            copied,
        )) + match_bytes(out + match_bytes(dict + out, offset, copied), offset, len - copied),
{
    let history = dict + out;
    let head = match_bytes(history, offset, copied);
    lemma_match_bytes_split(history, offset, copied, len - copied);
    lemma_match_bytes_recent(dict, out + head, offset, len - copied);
}

} // verus!
