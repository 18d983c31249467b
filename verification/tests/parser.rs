use hdiffpatch::error::PatchError;
use hdiffpatch::parser::{
    get_file_stream_buffer_size, get_longs_from_stream, get_longs_from_stream_absolute,
    get_pair_index_reference_from_stream, get_paths_from_stream, read_boolean, read_byte,
    read_delim, read_exact, read_int_7bit, read_long_7bit, read_long_7bit_from_slice,
    read_long_7bit_tagged, read_string_to_null, ByteStream,
};
use hdiffpatch::structs::PairIndexReference;
use hdiffpatch::varint::{to_signed, to_unsigned};

/// The bytes that write a number, seven bits each, the first ones first.
fn number(v: u64) -> Vec<u8> {
    let mut digits = vec![(v % 128) as u8];
    let mut rest = v / 128;
    while rest > 0 {
        digits.push((rest % 128) as u8 + 128);
        rest /= 128;
    }
    digits.reverse();
    digits
}

#[test]
fn numbers_of_one_and_more_bytes() {
    for (bytes, want) in [
        (vec![0u8], 0i64),
        (vec![5], 5),
        (vec![127], 127),
        (vec![0x81, 0x00], 128),
        (vec![0xFF, 0x7F], 16383),
        (vec![0x81, 0x80, 0x00], 16384),
    ] {
        let mut src = ByteStream::new(&bytes);
        assert_eq!(read_long_7bit(&mut src), Ok(want));
        assert_eq!(src.pos, bytes.len() as u64);
    }
}

#[test]
fn a_number_is_read_back_as_it_was_written() {
    for v in [0u64, 1, 127, 128, 300, 65535, 1 << 40, (1 << 62) + 12345, i64::MAX as u64] {
        let bytes = number(v);
        let mut src = ByteStream::new(&bytes);
        assert_eq!(read_long_7bit(&mut src), Ok(v as i64));
        assert_eq!(src.pos, bytes.len() as u64);
    }
}

#[test]
fn a_number_takes_no_more_bytes_than_its_own() {
    let mut bytes = number(300);
    bytes.extend_from_slice(&[9, 9, 9]);
    let mut src = ByteStream::new(&bytes);
    assert_eq!(read_long_7bit(&mut src), Ok(300));
    assert_eq!(read_byte(&mut src), Ok(9));
    assert_eq!(src.pos, 3);
}

#[test]
fn a_number_beyond_all_bits_reads_as_zero() {
    let bytes = [0xFFu8; 20];
    let mut src = ByteStream::new(&bytes);
    assert_eq!(read_long_7bit(&mut src), Ok(0));
    // Nine digits of seven bits reach the limit, and no more are read.
    assert_eq!(src.pos, 9);
}

#[test]
fn a_number_that_is_cut_off() {
    let bytes = [0x81u8];
    let mut src = ByteStream::new(&bytes);
    assert_eq!(read_long_7bit(&mut src), Err(PatchError::UnexpectedEof));
    let mut none = ByteStream::new(&[]);
    assert_eq!(read_long_7bit(&mut none), Err(PatchError::UnexpectedEof));
}

#[test]
fn tagged_numbers() {
    // One tag bit: the next says whether digits follow, and six are payload.
    let mut src = ByteStream::new(&[]);
    assert_eq!(read_long_7bit_tagged(&mut src, 1, 0x80 + 5), Ok(5));
    let bytes = [0x02u8];
    let mut src = ByteStream::new(&bytes);
    assert_eq!(read_long_7bit_tagged(&mut src, 1, 0x40 + 3), Ok(3 * 128 + 2));
    // Two tag bits: five are payload.
    let mut src = ByteStream::new(&[]);
    assert_eq!(read_long_7bit_tagged(&mut src, 2, 0xC0 + 31), Ok(31));
}

#[test]
fn small_integers() {
    let bytes = [0x81u8, 0x00];
    let mut src = ByteStream::new(&bytes);
    assert_eq!(read_int_7bit(&mut src), Ok(128));
}

#[test]
fn numbers_in_a_slice() {
    let bytes = [9u8, 0x81, 0x00, 7];
    let mut offset = 1usize;
    assert_eq!(read_long_7bit_from_slice(&bytes, &mut offset, 0, 0), 128);
    assert_eq!(offset, 3);
    assert_eq!(read_long_7bit_from_slice(&bytes, &mut offset, 1, 0x41), 128 + 7);
    assert_eq!(offset, 4);
}

#[test]
fn signs_by_the_same_bits() {
    assert_eq!(to_signed(u64::MAX), -1);
    assert_eq!(to_signed(1 << 63), i64::MIN);
    assert_eq!(to_unsigned(-1), u64::MAX);
    assert_eq!(to_unsigned(5), 5);
}

#[test]
fn truth_values() {
    let bytes = [0u8, 1, 7];
    let mut src = ByteStream::new(&bytes);
    assert_eq!(read_boolean(&mut src), Ok(false));
    assert_eq!(read_boolean(&mut src), Ok(true));
    assert_eq!(read_boolean(&mut src), Ok(true));
    assert_eq!(read_boolean(&mut src), Err(PatchError::UnexpectedEof));
}

#[test]
fn bytes_that_must_be_there() {
    let bytes = [1u8, 2, 3];
    let mut src = ByteStream::new(&bytes);
    assert_eq!(read_exact(&mut src, 2), Ok(vec![1, 2]));
    assert_eq!(read_exact(&mut src, 2), Err(PatchError::UnexpectedEof));
}

#[test]
fn texts_up_to_a_zero() {
    let bytes = b"HDIFF13&zstd\0rest";
    let mut src = ByteStream::new(bytes);
    assert_eq!(read_string_to_null(&mut src), Ok("HDIFF13&zstd".to_string()));
    assert_eq!(src.pos, 13);
    assert_eq!(read_string_to_null(&mut src), Ok("rest".to_string()));
}

#[test]
fn texts_that_are_not_utf8() {
    let bytes = [b'a', 0xFF, b'b', 0];
    let mut src = ByteStream::new(&bytes);
    assert_eq!(read_string_to_null(&mut src), Ok("a\u{FFFD}b".to_string()));
    let umlaut = "ö".as_bytes();
    let mut src = ByteStream::new(umlaut);
    assert_eq!(read_string_to_null(&mut src), Ok("ö".to_string()));
}

#[test]
fn texts_up_to_a_delimiter() {
    let bytes = b"HDIFF19&zstd&";
    let mut src = ByteStream::new(bytes);
    assert_eq!(read_delim(&mut src, b'&', 10), Ok("HDIFF19".to_string()));
    assert_eq!(read_delim(&mut src, b'&', 3), Ok("zst".to_string()));
    assert_eq!(src.pos, 11);
    assert_eq!(read_delim(&mut src, b'&', 10), Ok("d".to_string()));
    assert_eq!(read_delim(&mut src, b'&', 10), Err(PatchError::UnexpectedEof));
    // A limit of none lets one byte through all the same.
    let mut src = ByteStream::new(b"ab&");
    assert_eq!(read_delim(&mut src, b'&', 0), Ok("a".to_string()));
    assert_eq!(src.pos, 1);
}

#[test]
fn lists_of_numbers() {
    let bytes = [1u8, 0x81, 0x00, 3];
    let mut src = ByteStream::new(&bytes);
    assert_eq!(get_longs_from_stream_absolute(&mut src, 3), Ok(vec![1, 128, 3]));
    let mut src = ByteStream::new(&bytes);
    assert_eq!(get_longs_from_stream_absolute(&mut src, 4), Err(PatchError::UnexpectedEof));
}

#[test]
fn lists_of_indices_ascend_by_their_distances() {
    let bytes = [0u8, 0, 2];
    let mut src = ByteStream::new(&bytes);
    assert_eq!(get_longs_from_stream(&mut src, 3, Some(4)), Ok(vec![0, 1, 4]));
    let mut src = ByteStream::new(&bytes);
    assert_eq!(
        get_longs_from_stream(&mut src, 3, Some(3)),
        Err(PatchError::InvalidIndex { at: 2, max: 3 })
    );
    let mut src = ByteStream::new(&bytes);
    assert_eq!(get_longs_from_stream(&mut src, 3, None), Ok(vec![0, 1, 4]));
}

#[test]
fn pairs_of_indices() {
    // New 0 with old 2, and new 1 with old 1.
    let bytes = [0u8, 2, 0, 0x80 + 2];
    let mut src = ByteStream::new(&bytes);
    assert_eq!(
        get_pair_index_reference_from_stream(&mut src, 2, 5, 5),
        Ok(vec![
            PairIndexReference { new_index: 0, old_index: 2 },
            PairIndexReference { new_index: 1, old_index: 1 },
        ])
    );
    let mut src = ByteStream::new(&bytes);
    assert_eq!(
        get_pair_index_reference_from_stream(&mut src, 2, 0, 5),
        Err(PatchError::InvalidNewIndex { at: 1, value: 1 })
    );
    let mut src = ByteStream::new(&bytes);
    assert_eq!(
        get_pair_index_reference_from_stream(&mut src, 2, 5, 1),
        Err(PatchError::InvalidOldIndex { at: 0, value: 2 })
    );
}

#[test]
fn lists_of_paths() {
    let bytes = b"a.txt\0dir/\0tail";
    let mut src = ByteStream::new(bytes);
    assert_eq!(
        get_paths_from_stream(&mut src, 15, 3),
        Ok(vec!["a.txt".to_string(), "dir/".to_string(), String::new()])
    );
    let mut src = ByteStream::new(bytes);
    assert_eq!(get_paths_from_stream(&mut src, 15, 1), Ok(vec!["a.txt".to_string()]));
    let mut src = ByteStream::new(bytes);
    assert_eq!(get_paths_from_stream(&mut src, 16, 1), Err(PatchError::UnexpectedEof));
}

#[test]
fn buffers_grow_with_the_file() {
    assert_eq!(get_file_stream_buffer_size(0), 4096);
    assert_eq!(get_file_stream_buffer_size(131_072), 4096);
    assert_eq!(get_file_stream_buffer_size(131_073), 65_536);
    assert_eq!(get_file_stream_buffer_size(1_048_577), 131_072);
    assert_eq!(get_file_stream_buffer_size(33_554_433), 524_288);
    assert_eq!(get_file_stream_buffer_size(104_857_601), 1_048_576);
}

#[test]
fn places_that_no_file_has() {
    let bytes = [1u8, 2];
    let mut src = ByteStream::new(&bytes);
    assert_eq!(src.seek_start(u64::MAX), Err(PatchError::InvalidSeek));
    assert_eq!(src.seek_current(-1), Err(PatchError::InvalidSeek));
    assert_eq!(src.seek_current(100), Ok(()));
    assert_eq!(read_byte(&mut src), Err(PatchError::UnexpectedEof));
}
