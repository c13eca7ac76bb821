use lz4_block::backref::{copy_from_dict, duplicate_overlapping_slice, duplicate_slice};
use lz4_block::bytes::{fill_at, write_at};
use lz4_block::error::DecompressError;
use lz4_block::sink::Sink;

#[test]
fn sink_appends_at_the_cursor() {
    let mut buf = [0u8; 6];
    let mut sink = Sink::new(&mut buf, 0);
    assert_eq!(sink.pos(), 0);
    assert_eq!(sink.capacity(), 6);
    assert_eq!(sink.push(b'a'), Ok(()));
    assert_eq!(sink.extend_from_slice(b"bcd"), Ok(()));
    assert_eq!(sink.extend_from_slice(b""), Ok(()));
    assert_eq!(sink.pos(), 4);
    assert_eq!(sink.as_slice(), b"abcd");
    assert_eq!(buf, [b'a', b'b', b'c', b'd', 0, 0]);
}

#[test]
fn sink_starts_at_the_given_cursor() {
    let mut buf = *b"abcd....";
    let mut sink = Sink::new(&mut buf, 4);
    assert_eq!(sink.as_slice(), b"abcd");
    assert_eq!(sink.push(b'e'), Ok(()));
    assert_eq!(sink.as_slice(), b"abcde");
}

#[test]
fn full_sink_rejects_a_push() {
    let mut buf = [0u8; 2];
    let mut sink = Sink::new(&mut buf, 0);
    assert_eq!(sink.push(1), Ok(()));
    assert_eq!(sink.push(2), Ok(()));
    assert_eq!(sink.push(3), Err(DecompressError::OutputTooSmall { expected: 3, actual: 2 }));
    assert_eq!(sink.as_slice(), &[1, 2]);
}

#[test]
fn sink_rejects_data_that_does_not_fit() {
    let mut buf = [0u8; 4];
    let mut sink = Sink::new(&mut buf, 0);
    assert_eq!(sink.extend_from_slice(b"ab"), Ok(()));
    assert_eq!(
        sink.extend_from_slice(b"cde"),
        Err(DecompressError::OutputTooSmall { expected: 5, actual: 4 })
    );
    assert_eq!(sink.as_slice(), b"ab");
    assert_eq!(sink.extend_from_slice(b"cd"), Ok(()));
    assert_eq!(sink.as_slice(), b"abcd");
}

#[test]
fn set_pos_moves_the_cursor_over_the_buffer() {
    let mut buf = *b"abcdef";
    let mut sink = Sink::new(&mut buf, 2);
    sink.set_pos(5);
    assert_eq!(sink.as_slice(), b"abcde");
    sink.set_pos(1);
    assert_eq!(sink.as_slice(), b"a");
}

#[test]
fn write_at_overwrites_in_place() {
    let mut buf = *b"........";
    write_at(&mut buf, 2, b"abc");
    assert_eq!(&buf, b"..abc...");
    write_at(&mut buf, 8, b"");
    write_at(&mut buf, 5, b"xyz");
    assert_eq!(&buf, b"..abcxyz");
}

#[test]
fn fill_at_sets_a_range() {
    let mut buf = *b"........";
    fill_at(&mut buf, 3, 4, b'#');
    assert_eq!(&buf, b"...####.");
    fill_at(&mut buf, 0, 0, b'!');
    assert_eq!(&buf, b"...####.");
}

#[test]
fn copy_from_dict_takes_the_whole_match() {
    let mut buf = [0u8; 16];
    let mut sink = Sink::new(&mut buf, 0);
    assert_eq!(sink.extend_from_slice(b"ab"), Ok(()));
    // Offset 7 at cursor 2: the match starts 5 bytes before the end of the dictionary.
    assert_eq!(copy_from_dict(&mut sink, b"0123456789", 7, 4), Ok(4));
    assert_eq!(sink.as_slice(), b"ab5678");
}

#[test]
fn copy_from_dict_stops_at_the_end_of_the_dictionary() {
    let mut buf = [0u8; 16];
    let mut sink = Sink::new(&mut buf, 0);
    assert_eq!(sink.extend_from_slice(b"ab"), Ok(()));
    assert_eq!(copy_from_dict(&mut sink, b"0123456789", 5, 9), Ok(3));
    assert_eq!(sink.as_slice(), b"ab789");
    // The rest of the match lies in the output, at the same offset.
    assert_eq!(duplicate_slice(&mut sink, 5, 6), Ok(()));
    assert_eq!(sink.as_slice(), b"ab789ab789a");
}

#[test]
fn copy_from_dict_rejects_an_offset_beyond_the_dictionary() {
    let mut buf = [0u8; 16];
    let mut sink = Sink::new(&mut buf, 2);
    assert_eq!(
        copy_from_dict(&mut sink, b"0123456789", 13, 4),
        Err(DecompressError::OffsetOutOfBounds)
    );
    assert_eq!(sink.pos(), 2);
    assert_eq!(copy_from_dict(&mut sink, b"0123456789", 12, 4), Ok(4));
    assert_eq!(&sink.as_slice()[2..], b"0123");
}

#[test]
fn copy_from_dict_rejects_what_does_not_fit() {
    let mut buf = [0u8; 4];
    let mut sink = Sink::new(&mut buf, 2);
    assert_eq!(
        copy_from_dict(&mut sink, b"0123456789", 7, 3),
        Err(DecompressError::OutputTooSmall { expected: 5, actual: 4 })
    );
    assert_eq!(sink.pos(), 2);
}

#[test]
fn duplicate_slice_copies_without_overlap() {
    // Near the end of the sink: an exact copy.
    let mut buf = [0u8; 12];
    let mut sink = Sink::new(&mut buf, 0);
    assert_eq!(sink.extend_from_slice(b"abcdefgh"), Ok(()));
    assert_eq!(duplicate_slice(&mut sink, 6, 4), Ok(()));
    assert_eq!(sink.as_slice(), b"abcdefghcdef");
}

#[test]
fn duplicate_slice_copies_in_blocks_where_there_is_room() {
    let plain: Vec<u8> = (0..40u8).collect();
    let mut buf = [0xEEu8; 128];
    let mut sink = Sink::new(&mut buf, 0);
    assert_eq!(sink.extend_from_slice(&plain), Ok(()));
    // 35 bytes at offset 38: three blocks, the last one writes past the match.
    assert_eq!(duplicate_slice(&mut sink, 38, 35), Ok(()));
    assert_eq!(sink.pos(), 75);
    let mut expected = plain.clone();
    expected.extend_from_slice(&plain[2..37]);
    assert_eq!(sink.as_slice(), &expected[..]);
    // Offset equal to the length, shorter than a block.
    assert_eq!(duplicate_slice(&mut sink, 5, 5), Ok(()));
    expected.extend_from_slice(&plain[32..37]);
    assert_eq!(sink.as_slice(), &expected[..]);
    // Just enough room for blocks: the match ends 15 bytes before the end of the sink.
    assert_eq!(duplicate_slice(&mut sink, 80, 33), Ok(()));
    expected.extend_from_slice(&plain[0..33]);
    assert_eq!(sink.pos(), 113);
    assert_eq!(sink.as_slice(), &expected[..]);
}

#[test]
fn duplicate_slice_with_overlap() {
    let mut buf = [0u8; 32];
    let mut sink = Sink::new(&mut buf, 0);
    assert_eq!(sink.extend_from_slice(b"xyabc"), Ok(()));
    assert_eq!(duplicate_slice(&mut sink, 3, 8), Ok(()));
    assert_eq!(sink.as_slice(), b"xyabcabcabcab");
}

#[test]
fn duplicate_slice_rejects_bad_offsets() {
    let mut buf = [0u8; 32];
    let mut sink = Sink::new(&mut buf, 0);
    assert_eq!(sink.extend_from_slice(b"abc"), Ok(()));
    assert_eq!(duplicate_slice(&mut sink, 0, 4), Err(DecompressError::OffsetOutOfBounds));
    assert_eq!(duplicate_slice(&mut sink, 0, 0), Err(DecompressError::OffsetOutOfBounds));
    assert_eq!(duplicate_slice(&mut sink, 4, 2), Err(DecompressError::OffsetOutOfBounds));
    assert_eq!(duplicate_slice(&mut sink, 4, 9), Err(DecompressError::OffsetOutOfBounds));
    assert_eq!(sink.as_slice(), b"abc");
    assert_eq!(duplicate_slice(&mut sink, 3, 2), Ok(()));
    assert_eq!(sink.as_slice(), b"abcab");
}

#[test]
fn duplicate_overlapping_slice_fills_a_run() {
    let mut buf = [0u8; 16];
    let mut sink = Sink::new(&mut buf, 0);
    assert_eq!(sink.extend_from_slice(b"ab"), Ok(()));
    assert_eq!(duplicate_overlapping_slice(&mut sink, 1, 6), Ok(()));
    assert_eq!(sink.as_slice(), b"abbbbbbb");
    assert_eq!(duplicate_overlapping_slice(&mut sink, 1, 0), Ok(()));
    assert_eq!(sink.as_slice(), b"abbbbbbb");
}

#[test]
fn duplicate_overlapping_slice_copies_byte_by_byte() {
    let mut buf = [0u8; 16];
    let mut sink = Sink::new(&mut buf, 0);
    assert_eq!(sink.extend_from_slice(b"abc"), Ok(()));
    assert_eq!(duplicate_overlapping_slice(&mut sink, 2, 5), Ok(()));
    assert_eq!(sink.as_slice(), b"abcbcbcb");
    // Without overlap it is a plain copy.
    assert_eq!(duplicate_overlapping_slice(&mut sink, 8, 3), Ok(()));
    assert_eq!(sink.as_slice(), b"abcbcbcbabc");
}

#[test]
fn duplicate_overlapping_slice_rejects_bad_offsets() {
    let mut buf = [0u8; 16];
    let mut sink = Sink::new(&mut buf, 0);
    assert_eq!(sink.extend_from_slice(b"abc"), Ok(()));
    assert_eq!(
        duplicate_overlapping_slice(&mut sink, 0, 4),
        Err(DecompressError::OffsetOutOfBounds)
    );
    assert_eq!(
        duplicate_overlapping_slice(&mut sink, 4, 5),
        Err(DecompressError::OffsetOutOfBounds)
    );
    assert_eq!(sink.as_slice(), b"abc");
}

#[test]
fn copy_within_moves_a_range_that_does_not_overlap() {
    let mut buf = *b"abcdef......";
    let mut sink = Sink::new(&mut buf, 6);
    sink.copy_within(1, 4, 6);
    assert_eq!(sink.pos(), 6);
    sink.set_pos(9);
    assert_eq!(sink.as_slice(), b"abcdefbcd");
    // Source right before the destination.
    sink.copy_within(6, 9, 9);
    sink.set_pos(12);
    assert_eq!(sink.as_slice(), b"abcdefbcdbcd");
}

#[test]
fn copy_within_repeats_where_the_destination_overlaps_the_source() {
    let mut buf = *b"abc.........";
    let mut sink = Sink::new(&mut buf, 3);
    // Distance 2: the bytes "bc" repeat.
    sink.copy_within(1, 8, 3);
    sink.set_pos(10);
    assert_eq!(sink.as_slice(), b"abcbcbcbcb");
    // Distance 1: a run.
    sink.copy_within(9, 11, 10);
    sink.set_pos(12);
    assert_eq!(sink.as_slice(), b"abcbcbcbcbbb");
}

#[test]
fn copy_within_towards_the_front() {
    let mut buf = *b"..abcdef";
    let mut sink = Sink::new(&mut buf, 8);
    sink.copy_within(2, 8, 0);
    assert_eq!(sink.as_slice(), b"abcdefef");
    sink.copy_within(3, 3, 0);
    sink.copy_within(0, 8, 0);
    assert_eq!(sink.as_slice(), b"abcdefef");
}
