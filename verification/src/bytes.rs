//! Block operations on byte buffers.
//!
//! The three copy routines of the standard library that the decoder relies on are given
//! their contracts here; the helpers below them are proved from those contracts.

use vstd::prelude::*;

verus! {

/// `buf` with the bytes from `at` on overwritten by `data`.
pub open spec fn overwrite(buf: Seq<u8>, at: int, data: Seq<u8>) -> Seq<u8> {
    buf.subrange(0, at) + data + buf.subrange(at + data.len(), buf.len() as int)
}

/// `len` copies of `value`.
pub open spec fn repeated(value: u8, len: int) -> Seq<u8> {
    Seq::new(len as nat, |i: int| value)
}

/// Contract of `<[T]>::copy_from_slice`, which is not proved here: the destination ends
/// up holding the elements of `src`. The standard library panics unless both slices have
/// the same length, so that is required.
pub assume_specification<T>[ <[T]>::copy_from_slice ](dst: &mut [T], src: &[T]) where T: Copy
    requires
        old(dst)@.len() == src@.len(),
    ensures
        final(dst)@ == src@,
;

/// Calls `<[u8]>::copy_within`, whose behaviour is not proved here: the bytes that
/// `buf[start..end]` held before the call are copied to `buf[dest..]`, as by `memmove`, so
/// the two ranges may overlap; every other byte keeps its value. The standard library
/// panics if either range leaves the buffer, so both are required to lie inside it.
#[verifier::external_body]
pub(crate) fn copy_within(buf: &mut [u8], start: usize, end: usize, dest: usize)
    requires
        start <= end <= old(buf)@.len(),
        dest + (end - start) <= old(buf)@.len(),
    ensures
        final(buf)@ == overwrite(
            old(buf)@,
            dest as int,
            old(buf)@.subrange(start as int, end as int),
        ),
{
    buf.copy_within(start..end, dest);
}

/// Calls `<[u8]>::fill`, whose behaviour is not proved here: every byte of `buf` is set to
/// `value`.
#[verifier::external_body]
pub(crate) fn fill(buf: &mut [u8], value: u8)
    ensures
        final(buf)@ == repeated(value, old(buf)@.len() as int),
{
    buf.fill(value);
}

/// Overwrites `dst[at .. at + src.len()]` with `src`.
pub fn write_at(dst: &mut [u8], at: usize, src: &[u8])
    requires
        at + src@.len() <= old(dst)@.len(),
    ensures
        final(dst)@ == overwrite(old(dst)@, at as int, src@),
{
    let len = src.len();
    let (_, tail) = dst.split_at_mut(at);
    let (block, _) = tail.split_at_mut(len);
    block.copy_from_slice(src);
}

/// Sets the `len` bytes of `dst` from `at` on to `value`.
pub fn fill_at(dst: &mut [u8], at: usize, len: usize, value: u8)
    requires
        at + len <= old(dst)@.len(),
    ensures
        final(dst)@ == overwrite(old(dst)@, at as int, repeated(value, len as int)),
{
    let (_, tail) = dst.split_at_mut(at);
    let (block, _) = tail.split_at_mut(len);
    fill(block, value);
}

} // verus!
