use lz4_block::decompress::{
    decompress, decompress_into, decompress_into_with_dict, decompress_size_prepended,
    decompress_size_prepended_with_dict, decompress_sink_size, decompress_with_dict,
};
use lz4_block::error::DecompressError;
use lz4_block::reader::does_token_fit;
use lz4_block::sink::Sink;

const WORDS_PLAIN: [u8; 202] = [
    97, 108, 112, 104, 97, 33, 98, 114, 97, 118, 111, 34, 99, 104, 97, 114, 108, 105, 101, 35,
    97, 108, 112, 104, 97, 36, 100, 101, 108, 116, 97, 37, 98, 114, 97, 118, 111, 38, 101, 99,
    104, 111, 39, 99, 104, 97, 114, 108, 105, 101, 40, 102, 111, 120, 116, 114, 111, 116, 41,
    97, 108, 112, 104, 97, 42, 103, 111, 108, 102, 43, 100, 101, 108, 116, 97, 44, 104, 111,
    116, 101, 108, 45, 98, 114, 97, 118, 111, 46, 99, 104, 97, 114, 108, 105, 101, 47, 101, 99,
    104, 111, 48, 97, 108, 112, 104, 97, 49, 102, 111, 120, 116, 114, 111, 116, 50, 103, 111,
    108, 102, 51, 98, 114, 97, 118, 111, 52, 104, 111, 116, 101, 108, 53, 100, 101, 108, 116,
    97, 54, 99, 104, 97, 114, 108, 105, 101, 55, 97, 108, 112, 104, 97, 56, 101, 99, 104, 111,
    57, 102, 111, 120, 116, 114, 111, 116, 58, 98, 114, 97, 118, 111, 59, 103, 111, 108, 102,
    60, 104, 111, 116, 101, 108, 61, 97, 108, 112, 104, 97, 62, 99, 104, 97, 114, 108, 105, 101,
    63, 100, 101, 108, 116, 97, 64,
];

const WORDS_BLOCK: [u8; 150] = [
    241, 5, 97, 108, 112, 104, 97, 33, 98, 114, 97, 118, 111, 34, 99, 104, 97, 114, 108, 105,
    101, 35, 20, 0, 113, 36, 100, 101, 108, 116, 97, 37, 26, 0, 99, 38, 101, 99, 104, 111, 39,
    31, 0, 145, 40, 102, 111, 120, 116, 114, 111, 116, 41, 39, 0, 97, 42, 103, 111, 108, 102,
    43, 44, 0, 113, 44, 104, 111, 116, 101, 108, 45, 50, 0, 19, 46, 45, 0, 16, 47, 58, 0, 17,
    48, 42, 0, 19, 49, 56, 0, 16, 50, 50, 0, 17, 51, 38, 0, 17, 52, 50, 0, 17, 53, 62, 0, 19,
    54, 50, 0, 17, 55, 45, 0, 16, 56, 56, 0, 19, 57, 50, 0, 17, 58, 45, 0, 16, 59, 56, 0, 17,
    60, 50, 0, 17, 61, 36, 0, 19, 62, 50, 0, 112, 63, 100, 101, 108, 116, 97, 64,
];

const TEXT_PLAIN: [u8; 354] = [
    84, 104, 101, 32, 113, 117, 105, 99, 107, 32, 98, 114, 111, 119, 110, 32, 102, 111, 120, 32,
    106, 117, 109, 112, 115, 32, 111, 118, 101, 114, 32, 116, 104, 101, 32, 108, 97, 122, 121,
    32, 100, 111, 103, 46, 32, 84, 104, 101, 32, 113, 117, 105, 99, 107, 32, 98, 114, 111, 119,
    110, 32, 102, 111, 120, 32, 106, 117, 109, 112, 115, 32, 111, 118, 101, 114, 32, 116, 104,
    101, 32, 108, 97, 122, 121, 32, 100, 111, 103, 46, 32, 84, 104, 101, 32, 113, 117, 105, 99,
    107, 32, 98, 114, 111, 119, 110, 32, 102, 111, 120, 32, 106, 117, 109, 112, 115, 32, 111,
    118, 101, 114, 32, 116, 104, 101, 32, 108, 97, 122, 121, 32, 100, 111, 103, 46, 32, 80, 97,
    99, 107, 32, 109, 121, 32, 98, 111, 120, 32, 119, 105, 116, 104, 32, 102, 105, 118, 101, 32,
    100, 111, 122, 101, 110, 32, 108, 105, 113, 117, 111, 114, 32, 106, 117, 103, 115, 46, 32,
    84, 104, 101, 32, 113, 117, 105, 99, 107, 32, 98, 114, 111, 119, 110, 32, 102, 111, 120, 32,
    110, 97, 112, 115, 46, 32, 84, 104, 101, 32, 113, 117, 105, 99, 107, 32, 98, 114, 111, 119,
    110, 32, 102, 111, 120, 32, 110, 97, 112, 115, 46, 32, 48, 49, 50, 51, 52, 53, 54, 55, 56,
    57, 48, 49, 50, 51, 52, 53, 54, 55, 56, 57, 48, 49, 50, 51, 52, 53, 54, 55, 56, 57, 48, 49,
    50, 51, 52, 53, 54, 55, 56, 57, 48, 49, 50, 51, 52, 53, 54, 55, 56, 57, 48, 49, 50, 51, 52,
    53, 54, 55, 56, 57, 48, 49, 50, 51, 52, 53, 54, 55, 56, 57, 120, 121, 122, 122, 121, 97, 97,
    97, 97, 97, 97, 97, 97, 97, 97, 97, 97, 97, 97, 97, 97, 97, 97, 97, 97, 97, 97, 97, 97, 97,
    97, 97, 97, 97, 97, 97, 97, 97, 97, 97, 97, 97, 97, 97, 97, 69, 78, 68, 32, 79, 70, 32, 84,
    69, 88, 84,
];

const TEXT_BLOCK: [u8; 137] = [
    255, 30, 84, 104, 101, 32, 113, 117, 105, 99, 107, 32, 98, 114, 111, 119, 110, 32, 102, 111,
    120, 32, 106, 117, 109, 112, 115, 32, 111, 118, 101, 114, 32, 116, 104, 101, 32, 108, 97,
    122, 121, 32, 100, 111, 103, 46, 32, 45, 0, 71, 255, 24, 80, 97, 99, 107, 32, 109, 121, 32,
    98, 111, 120, 32, 119, 105, 116, 104, 32, 102, 105, 118, 101, 32, 100, 111, 122, 101, 110,
    32, 108, 105, 113, 117, 111, 114, 32, 106, 117, 103, 115, 86, 0, 3, 63, 110, 97, 112, 26, 0,
    10, 175, 48, 49, 50, 51, 52, 53, 54, 55, 56, 57, 10, 0, 41, 111, 120, 121, 122, 122, 121,
    97, 1, 0, 20, 176, 69, 78, 68, 32, 79, 70, 32, 84, 69, 88, 84,
];

const DICT: [u8; 66] = [
    48, 49, 50, 51, 52, 53, 54, 55, 56, 57, 32, 116, 104, 101, 32, 100, 105, 99, 116, 105, 111,
    110, 97, 114, 121, 32, 104, 111, 108, 100, 115, 32, 119, 111, 114, 100, 115, 58, 32, 113,
    117, 105, 99, 107, 32, 98, 114, 111, 119, 110, 32, 108, 97, 122, 121, 32, 102, 111, 120, 32,
    106, 117, 109, 112, 115, 32,
];

const DICT_PLAIN: [u8; 82] = [
    113, 117, 105, 99, 107, 32, 98, 114, 111, 119, 110, 32, 102, 111, 120, 32, 106, 117, 109,
    112, 115, 32, 111, 118, 101, 114, 32, 108, 97, 122, 121, 32, 119, 111, 114, 100, 115, 58,
    32, 116, 104, 101, 32, 100, 105, 99, 116, 105, 111, 110, 97, 114, 121, 32, 104, 111, 108,
    100, 115, 32, 48, 49, 50, 51, 52, 53, 54, 55, 56, 57, 32, 113, 117, 105, 99, 107, 32, 98,
    114, 111, 119, 110,
];

const DICT_BLOCK: [u8; 35] = [
    8, 27, 0, 6, 22, 0, 66, 111, 118, 101, 114, 42, 0, 3, 66, 0, 15, 94, 0, 2, 7, 126, 0, 176,
    113, 117, 105, 99, 107, 32, 98, 114, 111, 119, 110,
];

const BIG_BLOCK: [u8; 314] = [
    240, 21, 0, 7, 14, 21, 28, 35, 42, 49, 57, 64, 71, 78, 85, 92, 99, 106, 114, 121, 128, 135,
    142, 149, 156, 163, 171, 178, 185, 192, 199, 206, 213, 220, 228, 235, 242, 249, 36, 0, 31,
    170, 1, 0, 255, 255, 70, 255, 241, 0, 1, 2, 3, 4, 5, 6, 7, 8, 9, 10, 11, 12, 13, 14, 15, 16,
    17, 18, 19, 20, 21, 22, 23, 24, 25, 26, 27, 28, 29, 30, 31, 32, 33, 34, 35, 36, 37, 38, 39,
    40, 41, 42, 43, 44, 45, 46, 47, 48, 49, 50, 51, 52, 53, 54, 55, 56, 57, 58, 59, 60, 61, 62,
    63, 64, 65, 66, 67, 68, 69, 70, 71, 72, 73, 74, 75, 76, 77, 78, 79, 80, 81, 82, 83, 84, 85,
    86, 87, 88, 89, 90, 91, 92, 93, 94, 95, 96, 97, 98, 99, 100, 101, 102, 103, 104, 105, 106,
    107, 108, 109, 110, 111, 112, 113, 114, 115, 116, 117, 118, 119, 120, 121, 122, 123, 124,
    125, 126, 127, 128, 129, 130, 131, 132, 133, 134, 135, 136, 137, 138, 139, 140, 141, 142,
    143, 144, 145, 146, 147, 148, 149, 150, 151, 152, 153, 154, 155, 156, 157, 158, 159, 160,
    161, 162, 163, 164, 165, 166, 167, 168, 169, 170, 171, 172, 173, 174, 175, 176, 177, 178,
    179, 180, 181, 182, 183, 184, 185, 186, 187, 188, 189, 190, 191, 192, 193, 194, 195, 196,
    197, 198, 199, 200, 201, 202, 203, 204, 205, 206, 207, 208, 209, 210, 211, 212, 213, 214,
    215, 216, 217, 218, 219, 220, 221, 222, 223, 224, 225, 226, 227, 228, 229, 230, 231, 232,
    233, 234, 235, 236, 237, 238, 239, 240, 241, 242, 243, 244, 245, 246, 247, 248, 249, 250,
    251, 252, 253, 254, 255, 0, 1, 232, 80, 251, 252, 253, 254, 255,
];

/// 40 bytes without repeats, a run of 600 equal bytes, then every byte value twice over.
fn big_plain() -> Vec<u8> {
    let mut plain = Vec::new();
    for i in 0..40usize {
        plain.push(((i * 7 + (i >> 3)) & 255) as u8);
    }
    for _ in 0..600 {
        plain.push(0xAA);
    }
    for _ in 0..2 {
        for b in 0..=255u8 {
            plain.push(b);
        }
    }
    plain
}

#[test]
fn check_token() {
    assert_eq!(does_token_fit(15), false);
    assert_eq!(does_token_fit(14), true);
    assert_eq!(does_token_fit(114), true);
    assert_eq!(does_token_fit(0b11110000), false);
    assert_eq!(does_token_fit(0b10110000), true);
}

#[test]
fn all_literal() {
    assert_eq!(decompress(&[0x30, b'a', b'4', b'9'], 3).unwrap(), b"a49");
}

#[test]
fn offset_oob() {
    decompress(&[0x10, b'a', 2, 0], 4).unwrap_err();
    decompress(&[0x40, b'a', 1, 0], 4).unwrap_err();
}

#[test]
fn literal_only_block_into_sink() {
    let mut buf = [0u8; 3];
    let mut sink = Sink::new(&mut buf, 0);
    assert_eq!(decompress_into(&[0x30, b'a', b'4', b'9'], &mut sink), Ok(3));
    assert_eq!(sink.pos(), 3);
    assert_eq!(sink.as_slice(), b"a49");
    assert_eq!(buf, *b"a49");
}

#[test]
fn offset_beyond_output_is_offset_out_of_bounds() {
    assert_eq!(decompress(&[0x10, b'a', 2, 0], 4), Err(DecompressError::OffsetOutOfBounds));
    assert_eq!(decompress(&[0x10, b'a', 2, 0], 64), Err(DecompressError::OffsetOutOfBounds));
}

#[test]
fn literal_beyond_input_is_literal_out_of_bounds() {
    assert_eq!(decompress(&[0x40, b'a', 1, 0], 4), Err(DecompressError::LiteralOutOfBounds));
}

#[test]
fn zero_offset_is_offset_out_of_bounds() {
    assert_eq!(decompress(&[0x10, b'a', 0, 0, 0x00], 5), Err(DecompressError::OffsetOutOfBounds));
    // Also on the block-copy path: 18 bytes follow the token, and the sink is large.
    let mut block = vec![0x10, b'a', 0, 0];
    block.extend_from_slice(&[0xF0, 1]);
    block.extend_from_slice(&[b'z'; 16]);
    assert_eq!(decompress(&block, 100), Err(DecompressError::OffsetOutOfBounds));
}

#[test]
fn run_fill_with_offset_one() {
    assert_eq!(decompress(&[0x10, b'A', 1, 0, 0x00], 5).unwrap(), b"AAAAA");
    // A match nibble of 15 with one length byte of 0: 19 bytes.
    assert_eq!(decompress(&[0x1F, b'A', 1, 0, 0, 0x00], 20).unwrap(), vec![b'A'; 20]);
    // Length bytes 255 and 3: 19 + 258 bytes.
    assert_eq!(decompress(&[0x1F, b'A', 1, 0, 255, 3, 0x00], 278).unwrap(), vec![b'A'; 278]);
}

#[test]
fn overlapping_match_repeats_the_last_bytes() {
    // Literals "abc", then 7 bytes at offset 2: b c b c b c b.
    assert_eq!(decompress(&[0x33, b'a', b'b', b'c', 2, 0, 0x00], 10).unwrap(), b"abcbcbcbcb");
}

#[test]
fn round_trip_of_repeated_abcd() {
    let plain: Vec<u8> = b"abcd".iter().cycle().take(64).cloned().collect();
    let block = [0x4F, b'a', b'b', b'c', b'd', 4, 0, 36, 0x50, b'd', b'a', b'b', b'c', b'd'];
    assert_eq!(decompress(&block, 64).unwrap(), plain);
}

#[test]
fn round_trip_of_words() {
    assert_eq!(decompress(&WORDS_BLOCK, WORDS_PLAIN.len()).unwrap(), WORDS_PLAIN);
}

#[test]
fn round_trip_of_text() {
    assert_eq!(decompress(&TEXT_BLOCK, TEXT_PLAIN.len()).unwrap(), TEXT_PLAIN);
}

#[test]
fn round_trip_of_long_runs() {
    let plain = big_plain();
    assert_eq!(decompress(&BIG_BLOCK, plain.len()).unwrap(), plain);
}

#[test]
fn round_trip_with_dictionary() {
    assert_eq!(decompress_with_dict(&DICT_BLOCK, DICT_PLAIN.len(), &DICT).unwrap(), DICT_PLAIN);
}

#[test]
fn dictionary_block_without_dictionary_fails() {
    assert_eq!(
        decompress(&DICT_BLOCK, DICT_PLAIN.len()),
        Err(DecompressError::OffsetOutOfBounds)
    );
}

#[test]
fn match_starts_in_dictionary_and_runs_into_output() {
    // No literals, 4 bytes at offset 3: "789" out of the dictionary, then the "7" just written.
    let block = [0x00, 3, 0, 0x20, b'x', b'y'];
    assert_eq!(decompress_with_dict(&block, 6, b"0123456789").unwrap(), b"7897xy");
}

#[test]
fn match_lies_wholly_in_dictionary() {
    let block = [0x00, 10, 0, 0x00];
    assert_eq!(decompress_with_dict(&block, 4, b"0123456789").unwrap(), b"0123");
}

#[test]
fn offset_beyond_dictionary_is_offset_out_of_bounds() {
    let block = [0x00, 11, 0, 0x00];
    assert_eq!(
        decompress_with_dict(&block, 4, b"0123456789"),
        Err(DecompressError::OffsetOutOfBounds)
    );
    // Far from the ends too.
    let mut long = vec![0x10, b'a', 12, 0, 0xF0, 1];
    long.extend_from_slice(&[b'z'; 16]);
    assert_eq!(
        decompress_with_dict(&long, 100, b"0123456789"),
        Err(DecompressError::OffsetOutOfBounds)
    );
}

#[test]
fn dictionary_match_far_from_the_ends() {
    // Literal "a", then 6 bytes at offset 4: "789" out of the dictionary, "a", then "78".
    let mut block = vec![0x12, b'a', 4, 0, 0xF0, 1];
    block.extend_from_slice(&[b'z'; 16]);
    let mut expected = b"a789a78".to_vec();
    expected.extend_from_slice(&[b'z'; 16]);
    let mut buf = vec![0u8; 100];
    let mut sink = Sink::new(&mut buf, 0);
    assert_eq!(decompress_into_with_dict(&block, &mut sink, b"0123456789"), Ok(23));
    assert_eq!(sink.as_slice(), &expected[..]);
}

#[test]
fn empty_input_expects_another_byte() {
    assert_eq!(decompress(&[], 0), Err(DecompressError::ExpectedAnotherByte));
}

#[test]
fn lone_zero_token_is_the_empty_block() {
    assert_eq!(decompress(&[0x00], 0).unwrap(), b"");
}

#[test]
fn block_ending_after_a_match_expects_another_byte() {
    assert_eq!(
        decompress(&[0x10, b'A', 1, 0], 5),
        Err(DecompressError::ExpectedAnotherByte)
    );
}

#[test]
fn uncompressed_size_differs() {
    assert_eq!(
        decompress(&[0x30, b'a', b'4', b'9'], 5),
        Err(DecompressError::UncompressedSizeDiffers { expected: 5, actual: 3 })
    );
    assert_eq!(
        decompress_with_dict(&[0x00, 10, 0, 0x00], 9, b"0123456789"),
        Err(DecompressError::UncompressedSizeDiffers { expected: 9, actual: 4 })
    );
}

#[test]
fn output_too_small_for_literals() {
    assert_eq!(
        decompress(&[0x30, b'a', b'4', b'9'], 2),
        Err(DecompressError::OutputTooSmall { expected: 3, actual: 2 })
    );
}

#[test]
fn output_too_small_for_match() {
    assert_eq!(
        decompress(&[0x10, b'A', 1, 0, 0x00], 3),
        Err(DecompressError::OutputTooSmall { expected: 5, actual: 3 })
    );
    assert_eq!(
        decompress_with_dict(&[0x00, 10, 0, 0x00], 3, b"0123456789"),
        Err(DecompressError::OutputTooSmall { expected: 4, actual: 3 })
    );
}

#[test]
fn size_prepended_block() {
    assert_eq!(decompress_size_prepended(&[3, 0, 0, 0, 0x30, b'a', b'4', b'9']).unwrap(), b"a49");
    assert_eq!(
        decompress_size_prepended(&[3, 0, 0]),
        Err(DecompressError::ExpectedAnotherByte)
    );
    assert_eq!(
        decompress_size_prepended(&[4, 0, 0, 0, 0x30, b'a', b'4', b'9']),
        Err(DecompressError::UncompressedSizeDiffers { expected: 4, actual: 3 })
    );
    let mut prefixed = vec![64, 1, 0, 0];
    prefixed.extend_from_slice(&[0x1F, b'A', 1, 0, 255, 45, 0x00]);
    assert_eq!(decompress_size_prepended(&prefixed).unwrap(), vec![b'A'; 320]);
}

#[test]
fn size_prepended_block_with_dictionary() {
    let mut prefixed = vec![DICT_PLAIN.len() as u8, 0, 0, 0];
    prefixed.extend_from_slice(&DICT_BLOCK);
    assert_eq!(decompress_size_prepended_with_dict(&prefixed, &DICT).unwrap(), DICT_PLAIN);
    assert_eq!(
        decompress_size_prepended_with_dict(&[1], &DICT),
        Err(DecompressError::ExpectedAnotherByte)
    );
}

#[test]
fn sink_size_is_the_uncompressed_size() {
    assert_eq!(decompress_sink_size(0), 0);
    assert_eq!(decompress_sink_size(4096), 4096);
}
