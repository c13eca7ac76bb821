use lz4_block::error::DecompressError;
use lz4_block::reader::{does_token_fit, read_integer, read_u16, uncompressed_size};

#[test]
fn read_integer_sums_up_to_the_first_byte_below_255() {
    let input = [255, 255, 255, 4, 2, 3, 4, 6, 7];
    let mut pos = 0;
    assert_eq!(read_integer(&input, &mut pos), Ok(769));
    assert_eq!(pos, 4);
    assert_eq!(read_integer(&input, &mut pos), Ok(2));
    assert_eq!(pos, 5);
}

#[test]
fn read_integer_of_a_single_byte() {
    let mut pos = 0;
    assert_eq!(read_integer(&[0], &mut pos), Ok(0));
    assert_eq!(pos, 1);
    let mut pos = 1;
    assert_eq!(read_integer(&[9, 254, 9], &mut pos), Ok(254));
    assert_eq!(pos, 2);
}

#[test]
fn read_integer_expects_another_byte() {
    let mut pos = 0;
    assert_eq!(read_integer(&[], &mut pos), Err(DecompressError::ExpectedAnotherByte));
    let mut pos = 0;
    assert_eq!(read_integer(&[255, 255], &mut pos), Err(DecompressError::ExpectedAnotherByte));
    let mut pos = 7;
    assert_eq!(read_integer(&[1, 2], &mut pos), Err(DecompressError::ExpectedAnotherByte));
}

#[test]
fn read_integer_up_to_u32_max() {
    // 16843009 * 255 is u32::MAX.
    let mut input = vec![255u8; 16843009];
    input.push(0);
    let mut pos = 0;
    assert_eq!(read_integer(&input, &mut pos), Ok(u32::MAX));
    assert_eq!(pos, 16843010);
}

#[test]
fn read_integer_above_u32_max_is_rejected() {
    let mut input = vec![255u8; 16843009];
    input.push(1);
    let mut pos = 0;
    assert_eq!(read_integer(&input, &mut pos), Err(DecompressError::LiteralOutOfBounds));
    // The byte that takes the sum over the limit is reported even if the input then ends.
    let input = vec![255u8; 16843010];
    let mut pos = 0;
    assert_eq!(read_integer(&input, &mut pos), Err(DecompressError::LiteralOutOfBounds));
}

#[test]
fn read_u16_is_little_endian() {
    let input = [0x34, 0x12, 0xFF, 0xFF];
    let mut pos = 0;
    assert_eq!(read_u16(&input, &mut pos), Ok(0x1234));
    assert_eq!(pos, 2);
    assert_eq!(read_u16(&input, &mut pos), Ok(0xFFFF));
    assert_eq!(pos, 4);
}

#[test]
fn read_u16_expects_another_byte() {
    let input = [0x34, 0x12, 0xFF];
    let mut pos = 2;
    assert_eq!(read_u16(&input, &mut pos), Err(DecompressError::ExpectedAnotherByte));
    assert_eq!(pos, 2);
    let mut pos = 3;
    assert_eq!(read_u16(&input, &mut pos), Err(DecompressError::ExpectedAnotherByte));
    let mut pos = usize::MAX;
    assert_eq!(read_u16(&input, &mut pos), Err(DecompressError::ExpectedAnotherByte));
    assert_eq!(pos, usize::MAX);
}

#[test]
fn token_fits_unless_a_nibble_is_15() {
    for token in 0..=255u8 {
        assert_eq!(does_token_fit(token), token >> 4 != 15 && token & 15 != 15);
    }
}

#[test]
fn uncompressed_size_splits_off_four_bytes() {
    let input = [1, 2, 3, 4, 9, 8];
    let (size, rest) = uncompressed_size(&input).unwrap();
    assert_eq!(size, 0x04030201);
    assert_eq!(rest, &[9, 8]);
    let (size, rest) = uncompressed_size(&[255, 255, 255, 255]).unwrap();
    assert_eq!(size, u32::MAX as usize);
    assert_eq!(rest, &[] as &[u8]);
}

#[test]
fn uncompressed_size_expects_four_bytes() {
    assert_eq!(uncompressed_size(&[1, 2, 3]), Err(DecompressError::ExpectedAnotherByte));
    assert_eq!(uncompressed_size(&[]), Err(DecompressError::ExpectedAnotherByte));
}
