use hdiffpatch::error::PatchError;
use hdiffpatch::header::Header;
use hdiffpatch::hdiff::HdiffPatch;
use hdiffpatch::parser::ByteStream;
use hdiffpatch::signature::{split_parts, try_get_version};
use hdiffpatch::structs::{ChecksumMode, CompressionMode, DataReferenceInfo, HeaderInfo};

fn number(v: u64) -> Vec<u8> {
    let mut digits = vec![(v % 128) as u8];
    let mut rest = v / 128;
    while rest > 0 {
        digits.push((rest % 128) as u8 + 128);
        rest /= 128;
    }
    digits.reverse();
    digits
}

fn with_numbers(start: &[u8], numbers: &[u64]) -> Vec<u8> {
    let mut out = start.to_vec();
    for n in numbers {
        out.extend(number(*n));
    }
    out
}

fn error_of(bytes: &[u8]) -> Option<PatchError> {
    HdiffPatch::open(bytes, "").err()
}

/// A directory patch up to its inner patch, which starts at the returned place.
/// The head takes up `head_size` bytes, of zeros.
fn dir_patch(signature: &[u8], head_size: u64, checksum_bytes: u64) -> (Vec<u8>, usize) {
    let mut out = signature.to_vec();
    out.extend_from_slice(&[1, 1]);
    let numbers = [1u64, 10, 2, 20, 3, 30, 4, 40, 5, 50, 6, 0, 7, 9, head_size, 0, checksum_bytes];
    out = with_numbers(&out, &numbers);
    out.resize(out.len() + 4 * checksum_bytes as usize + head_size as usize + 7 + 9, 0);
    let inner = out.len();
    (out, inner)
}

#[test]
fn parts_of_a_signature() {
    let (parts, delims) = split_parts("HDIFF19&zstd&fadler64", 3);
    assert_eq!(parts, vec!["HDIFF19", "zstd", "fadler64"]);
    assert_eq!(delims, 2);
    assert_eq!(parts.join("&"), "HDIFF19&zstd&fadler64");
    let (parts, delims) = split_parts("&&ö&", 2);
    assert_eq!(parts, vec!["", ""]);
    assert_eq!(delims, 3);
    let (parts, delims) = split_parts("", 2);
    assert_eq!(parts, vec![""]);
    assert_eq!(delims, 0);
}

#[test]
fn version_numbers() {
    assert_eq!(try_get_version("HDIFF13"), Ok(13));
    assert_eq!(try_get_version("HDIFFSF20"), Ok(20));
    assert_eq!(try_get_version("xxHDIFF007"), Ok(7));
    assert_eq!(try_get_version("HDIFF"), Err(PatchError::InvalidVersion));
    assert_eq!(try_get_version("HDIFF13a"), Err(PatchError::InvalidVersion));
    assert_eq!(try_get_version("HDIFF9223372036854775807"), Ok(i64::MAX));
    assert_eq!(try_get_version("HDIFF9223372036854775808"), Err(PatchError::InvalidVersion));
    assert_eq!(try_get_version("HDIF13"), Err(PatchError::VersionMissing));
}

#[test]
fn signatures_that_are_refused() {
    assert_eq!(error_of(b""), Some(PatchError::NotHdiff));
    assert_eq!(error_of(b"ZDIFF13&\0"), Some(PatchError::NotHdiff));
    let long = [b"HDIFF13&".to_vec(), vec![b'z'; 57], vec![0]].concat();
    assert_eq!(error_of(&long), Some(PatchError::NotHdiff));
    assert_eq!(error_of(b"HDIFF13\0"), Some(PatchError::IncompleteHeader { parts: 1 }));
    assert_eq!(error_of(b"HDIFF13&a&b&c\0"), Some(PatchError::IncompleteHeader { parts: 4 }));
    assert_eq!(error_of(b"HDIFF14&zstd\0"), Some(PatchError::UnsupportedVersion { version: 14 }));
    assert_eq!(error_of(b"HDIFFxx&zstd\0"), Some(PatchError::InvalidVersion));
    assert_eq!(error_of(b"HDIFF13&lz4\0"), Some(PatchError::UnknownCompression));
    assert_eq!(
        error_of(b"HDIFF13&zstd&\0"),
        Some(PatchError::UnsupportedDirVersion { version: 13 })
    );
    assert_eq!(error_of(b"HDIFF19&lz4&\0"), Some(PatchError::UnknownCompression));
    assert_eq!(error_of(b"HDIFF19&&md5\0"), Some(PatchError::UnknownChecksum));
}

#[test]
fn headers_that_are_cut_off() {
    assert_eq!(error_of(b"HDIFF13&zstd\0"), Some(PatchError::UnexpectedEof));
    assert_eq!(error_of(b"HDIFFSF20&zstd\0\x01\x02"), Some(PatchError::UnexpectedEof));
    assert_eq!(error_of(b"HDIFF19&&\0\x01"), Some(PatchError::UnexpectedEof));
}

#[test]
fn the_header_of_a_file_patch() {
    let bytes = with_numbers(b"HDIFF13&zstd\0", &[100, 200, 3, 10, 5, 20, 0, 30, 1, 40, 2]);
    let mut stream = ByteStream::new(&bytes);
    let mut header = HeaderInfo::default();
    let mut info = DataReferenceInfo::default();
    let is_dir = Header::try_parse_header_info(&mut stream, "p.hdiff", &mut header, &mut info);
    assert_eq!(is_dir, Ok(false));
    assert_eq!(stream.pos, bytes.len() as u64);
    assert_eq!(header.header_magic, "HDIFF13");
    assert_eq!(header.patch_path, "p.hdiff");
    assert_eq!(header.comp_mode, CompressionMode::Zstd);
    assert!(!header.is_single_compressed_diff);
    assert_eq!(header.new_data_size, 100);
    assert_eq!(header.old_data_size, 200);
    assert_eq!(header.compressed_count, 2);
    let chunk = header.chunk_info;
    assert_eq!(chunk.types_end_pos, 13);
    assert_eq!(chunk.cover_count, 3);
    assert_eq!(chunk.compress_size_begin_pos, 17);
    assert_eq!((chunk.cover_buf_size, chunk.compress_cover_buf_size), (10, 5));
    assert_eq!((chunk.rle_ctrl_buf_size, chunk.compress_rle_ctrl_buf_size), (20, 0));
    assert_eq!((chunk.rle_code_buf_size, chunk.compress_rle_code_buf_size), (30, 1));
    assert_eq!((chunk.new_data_diff_size, chunk.compress_new_data_diff_size), (40, 2));
    assert_eq!(chunk.head_end_pos, 25);
    assert_eq!(chunk.cover_end_pos, 30);
    assert_eq!(info, DataReferenceInfo::default());
}

#[test]
fn a_cover_buffer_that_ends_nowhere() {
    let bytes =
        with_numbers(b"HDIFF13&\0", &[1, 1, 1, i64::MAX as u64, 0, 0, 0, 0, 0, 0, 0]);
    assert_eq!(error_of(&bytes), Some(PatchError::Malformed));
}

#[test]
fn the_header_of_a_single_compressed_patch() {
    let bytes = with_numbers(b"HDIFFSF20&\0", &[100, 200, 3, 4096, 50, 40]);
    let opened = HdiffPatch::open(&bytes, "").unwrap();
    let header = opened.header_info;
    assert!(!opened.patches_dir);
    assert!(header.is_single_compressed_diff);
    assert_eq!(header.comp_mode, CompressionMode::Nocomp);
    assert_eq!((header.new_data_size, header.old_data_size), (100, 200));
    assert_eq!(header.chunk_info.cover_count, 3);
    assert_eq!(header.step_mem_size, 4096);
    assert_eq!(header.single_chunk_info.uncompressed_size, 50);
    assert_eq!(header.single_chunk_info.compressed_size, 40);
    assert_eq!(header.single_chunk_info.diff_data_pos, bytes.len() as i64);
    assert_eq!(header.compressed_count, 1);
}

fn left_of(bytes: &[u8]) -> (Result<bool, PatchError>, HeaderInfo, DataReferenceInfo) {
    let mut header = HeaderInfo::default();
    header.step_mem_size = 5;
    let mut info = DataReferenceInfo::default();
    info.head_data_size = 6;
    let r =
        Header::try_parse_header_info(&mut ByteStream::new(bytes), "p", &mut header, &mut info);
    (r, header, info)
}

#[test]
fn a_failed_parse_leaves_what_it_read() {
    let (r, header, info) = left_of(b"nothing of the kind\0");
    assert_eq!(r, Err(PatchError::NotHdiff));
    assert_eq!((header.header_magic.as_str(), header.step_mem_size), ("", 0));
    assert_eq!(info, DataReferenceInfo::default());

    let (r, header, info) = left_of(b"HDIFF13&zstd\0");
    assert_eq!(r, Err(PatchError::UnexpectedEof));
    assert_eq!(header.header_magic, "HDIFF13");
    assert_eq!(header.comp_mode, CompressionMode::Zstd);
    assert_eq!(header.patch_path, "p");
    assert_eq!((header.new_data_size, header.step_mem_size), (0, 0));
    assert_eq!(info, DataReferenceInfo::default());

    let (r, header, _) = left_of(b"HDIFF13&what\0");
    assert_eq!(r, Err(PatchError::UnknownCompression));
    assert_eq!((header.header_magic.as_str(), header.patch_path.as_str()), ("HDIFF13", ""));

    let (r, header, _) = left_of(&with_numbers(b"HDIFF13&\0", &[100, 200, 3, 10, 5]));
    assert_eq!(r, Err(PatchError::UnexpectedEof));
    assert_eq!((header.new_data_size, header.old_data_size), (100, 200));
    assert_eq!(header.chunk_info.types_end_pos, 9);
    assert_eq!(header.chunk_info.cover_count, 3);
    assert_eq!(header.chunk_info.cover_buf_size, 10);
    assert_eq!(header.chunk_info.compress_cover_buf_size, 5);
    assert_eq!(header.chunk_info.rle_ctrl_buf_size, 0);
    assert_eq!((header.chunk_info.head_end_pos, header.compressed_count), (0, 0));

    let (r, header, _) = left_of(&with_numbers(b"HDIFFSF20&\0", &[100, 200, 3, 64]));
    assert_eq!(r, Err(PatchError::UnexpectedEof));
    assert_eq!((header.chunk_info.cover_count, header.step_mem_size), (3, 64));
    assert_eq!(header.single_chunk_info.uncompressed_size, 0);

    let (r, header, info) = left_of(&with_numbers(b"HDIFF19&zstd&crc32\0\x01\x00", &[1, 2, 3]));
    assert_eq!(r, Err(PatchError::UnexpectedEof));
    assert_eq!(header.checksum_mode, ChecksumMode::Crc32);
    assert_eq!((header.is_input_dir, header.is_output_dir), (true, false));
    assert_eq!((info.input_dir_count, info.input_sum_size, info.output_dir_count), (1, 2, 3));
    assert_eq!(info.head_data_size, 0);

    let (mut bytes, inner) = dir_patch(b"HDIFF19&&\0", 4, 0);
    bytes.extend_from_slice(b"HDIFF13&what\0");
    let (r, header, info) = left_of(&bytes);
    assert_eq!(r, Err(PatchError::UnknownCompression));
    assert_eq!((info.hdiff_data_offset, info.head_data_size), (inner as i64, 4));
    assert_eq!(header.header_magic, "");
}

#[test]
fn the_header_of_a_directory_patch() {
    let (mut bytes, inner) = dir_patch(b"HDIFF19&zstd&fadler64\0", 11, 2);
    bytes.extend_from_slice(b"HDIFF13&zlib\0");
    bytes = with_numbers(&bytes, &[8, 9, 1, 10, 0, 20, 0, 30, 0, 40, 0]);
    let opened = HdiffPatch::open(&bytes, "d").unwrap();
    assert!(opened.patches_dir);
    let info = opened.reference_info;
    assert_eq!(info.input_dir_count, 1);
    assert_eq!(info.input_sum_size, 10);
    assert_eq!(info.output_dir_count, 2);
    assert_eq!(info.output_sum_size, 20);
    assert_eq!((info.input_ref_file_count, info.input_ref_file_size), (3, 30));
    assert_eq!((info.output_ref_file_count, info.output_ref_file_size), (4, 40));
    assert_eq!((info.same_file_pair_count, info.same_file_size), (5, 50));
    assert_eq!(info.new_execute_count, 6);
    assert_eq!(info.private_reserved_data_size, 0);
    assert_eq!(info.private_extern_data_size, 7);
    assert_eq!(info.extern_data_size, 9);
    assert_eq!((info.head_data_size, info.head_data_compressed_size), (11, 0));
    assert_eq!(info.checksum_byte_size, 2);
    assert_eq!(info.head_data_offset, info.checksum_offset + 8);
    assert_eq!(info.private_extern_data_offset, info.head_data_offset + 11);
    assert_eq!(info.extern_data_offset, info.head_data_offset + 18);
    assert_eq!(info.hdiff_data_offset, inner as i64);
    assert_eq!(info.hdiff_data_size, (bytes.len() - inner) as i64);
    let header = opened.header_info;
    assert_eq!(header.checksum_mode, ChecksumMode::Fadler64);
    assert_eq!(header.comp_mode, CompressionMode::Zlib);
    assert_eq!(header.header_magic, "HDIFF13");
    assert!(!header.dir_data_is_compressed);
    assert_eq!((header.new_data_size, header.old_data_size), (8, 9));
    assert_eq!(header.chunk_info.types_end_pos, inner as i64 + 13);
}

#[test]
fn inner_patches_of_a_directory_patch() {
    // The mode of the outer signature holds where the inner one names none.
    let (mut bytes, _) = dir_patch(b"HDIFF19&zstd&\0", 0, 0);
    bytes.extend_from_slice(b"HDIFF13\0");
    bytes = with_numbers(&bytes, &[0; 11]);
    let opened = HdiffPatch::open(&bytes, "").unwrap();
    assert_eq!(opened.header_info.comp_mode, CompressionMode::Zstd);
    assert_eq!(opened.header_info.checksum_mode, ChecksumMode::Nochecksum);
    // A single-compressed one counts its place from its own start.
    let (mut bytes, inner) = dir_patch(b"HDIFF19&&\0", 0, 0);
    bytes.extend_from_slice(b"HDIFFSF20&zstd\0");
    bytes = with_numbers(&bytes, &[0; 6]);
    let opened = HdiffPatch::open(&bytes, "").unwrap();
    assert!(opened.header_info.is_single_compressed_diff);
    assert_eq!(
        opened.header_info.single_chunk_info.diff_data_pos,
        (bytes.len() - inner) as i64
    );
    let (mut bytes, _) = dir_patch(b"HDIFF19&&\0", 0, 0);
    bytes.extend_from_slice(b"HDIFF13&nothing\0");
    assert_eq!(error_of(&bytes), Some(PatchError::UnknownCompression));
}

#[test]
fn directory_patches_that_lead_nowhere() {
    // A head of so many bytes that the place behind it is no number.
    let mut bytes = b"HDIFF19&&\0\x01\x01".to_vec();
    let max = i64::MAX as u64;
    bytes = with_numbers(&bytes, &[0, 0, 0, 0, 0, 0, 0, 0, 0, 0, 0, 0, 0, 0, max, 0, 0]);
    assert_eq!(error_of(&bytes), Some(PatchError::Malformed));
    // An inner patch before the start of the file.
    let mut bytes = b"HDIFF19&&\0\x01\x01".to_vec();
    let back = (-100i64) as u64;
    bytes = with_numbers(&bytes, &[0, 0, 0, 0, 0, 0, 0, 0, 0, 0, 0, 0, back, 0, 0, 0, 0]);
    assert_eq!(error_of(&bytes), Some(PatchError::InvalidSeek));
}
