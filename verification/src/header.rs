//! The header of a patch: its signature, and the sizes and places that follow.
use crate::error::PatchError;
use crate::parser::{
    boolean_of, bytes_from, int_7bit_of, lemma_longs_len, long_7bit_of, longs_of, read_boolean,
    read_int_7bit, read_long_7bit, read_string_to_null, string_to_null_of, ByteSource, ByteStream,
};
use crate::partial_header::{
    chunk_info_left, counts_left, extern_left, head_sizes_left, header_left, identified_left,
    non_single_left, pick, read_numbers, references_left, signature_left, single_left,
};
use crate::signature::{
    law_parts_join, parts_of, split_parts, try_get_version, version_of, HDIFF_HEAD,
};
use crate::structs::{
    checksum_named, compression_named, ChecksumMode, CompressionMode, DataReferenceInfo,
    DiffChunkInfo, DiffSingleChunkInfo, HeaderInfo, HeaderModel,
};
use crate::text::{lowercase, same_text};
use crate::varint::{as_signed, as_unsigned, fits, to_signed, to_unsigned};
use vstd::prelude::*;
use vstd::utf8::{encode_scalar, encode_utf8};

verus! {

/// The longest signature of a patch, in bytes.
pub const SIGNATURE_LIMIT: usize = 64;

/// The first part of the signature of a single-compressed patch inside of a
/// directory patch.
pub const SINGLE_COMPRESSED_HEAD: &'static str = "HDIFFSF20";

/// The most that is passed over in a header at a time.
pub const SKIP_LIMIT: i32 = 0x1000;

/// Whether a text starts with `HDIFF`.
pub open spec fn starts_as_hdiff(line: Seq<char>) -> bool {
    line.len() >= HDIFF_HEAD@.len() && line.take(HDIFF_HEAD@.len() as int) == HDIFF_HEAD@
}

/// What a signature says: whether the patch is one of directories, and how it
/// is compressed.
pub open spec fn signature_of(line: Seq<char>) -> Result<(bool, HeaderModel), PatchError> {
    let parts = parts_of(line);
    if encode_utf8(line).len() > SIGNATURE_LIMIT || !starts_as_hdiff(line) {
        Err(PatchError::NotHdiff)
    } else if parts.len() == 2 {
        file_signature_of(parts)
    } else if parts.len() != 3 {
        Err(PatchError::IncompleteHeader { parts: parts.len() as usize })
    } else {
        dir_signature_of(parts)
    }
}

/// What the two parts of a file patch's signature say.
pub open spec fn file_signature_of(parts: Seq<Seq<char>>) -> Result<
    (bool, HeaderModel),
    PatchError,
> {
    match version_of(parts[0]) {
        Err(e) => Err(e),
        Ok(version) => if version != 13 && version != 20 {
            Err(PatchError::UnsupportedVersion { version })
        } else {
            match compression_named(lowercase(parts[1])) {
                None => Err(PatchError::UnknownCompression),
                Some(comp_mode) => Ok(
                    (
                        false,
                        HeaderModel {
                            header_magic: parts[0],
                            comp_mode,
                            is_single_compressed_diff: version == 20,
                            ..HeaderModel::zero()
                        },
                    ),
                ),
            }
        },
    }
}

/// What the three parts of a directory patch's signature say.
pub open spec fn dir_signature_of(parts: Seq<Seq<char>>) -> Result<
    (bool, HeaderModel),
    PatchError,
> {
    match version_of(parts[0]) {
        Err(e) => Err(e),
        Ok(version) => if version != 19 {
            Err(PatchError::UnsupportedDirVersion { version })
        } else {
            match named_or_not(parts[1]) {
                None => Err(PatchError::UnknownCompression),
                Some(comp_mode) => match checksum_or_not(parts[2]) {
                    None => Err(PatchError::UnknownChecksum),
                    Some(checksum_mode) => Ok(
                        (true, HeaderModel { comp_mode, checksum_mode, ..HeaderModel::zero() }),
                    ),
                },
            }
        },
    }
}

/// The compression mode with a name, and none where there is no name.
pub open spec fn named_or_not(name: Seq<char>) -> Option<CompressionMode> {
    if name.len() == 0 {
        Some(CompressionMode::Nocomp)
    } else {
        compression_named(lowercase(name))
    }
}

/// The checksum mode with a name, and none where there is no name.
pub open spec fn checksum_or_not(name: Seq<char>) -> Option<ChecksumMode> {
    if name.len() == 0 {
        Some(ChecksumMode::Nochecksum)
    } else {
        checksum_named(lowercase(name))
    }
}

proof fn lemma_encoding_no_shorter(chars: Seq<char>)
    ensures
        encode_utf8(chars).len() >= chars.len(),
    decreases chars.len(),
{
    if chars.len() > 0 {
        lemma_encoding_no_shorter(chars.drop_first());
        assert(encode_scalar(chars[0] as u32).len() >= 1);
    }
}

/// How much of the patch a part takes up: its compressed size, where it has one.
pub open spec fn stored_size(compressed: i64, size: i64) -> i64 {
    if compressed > 0 {
        compressed
    } else {
        size
    }
}

/// The sizes of the four chunks of a patch, in bytes at `pos` of it.
pub open spec fn chunk_info_of(rest: Seq<u8>, pos: int, types_end_pos: i64) -> Result<
    (DiffChunkInfo, Seq<u8>),
    PatchError,
> {
    match long_7bit_of(rest) {
        Err(e) => Err(e),
        Ok((cover_count, sizes)) => match longs_of(sizes, 8) {
            Err(e) => Err(e),
            Ok((n, left)) => {
                let head_end_pos = as_signed(pos + rest.len() - left.len());
                let cover_end_pos = head_end_pos + stored_size(n[1], n[0]);
                if !fits(cover_end_pos) {
                    Err(PatchError::Malformed)
                } else {
                    Ok(
                        (
                            DiffChunkInfo {
                                types_end_pos,
                                cover_count,
                                compress_size_begin_pos: as_signed(
                                    pos + rest.len() - sizes.len(),
                                ),
                                cover_buf_size: n[0],
                                compress_cover_buf_size: n[1],
                                rle_ctrl_buf_size: n[2],
                                compress_rle_ctrl_buf_size: n[3],
                                rle_code_buf_size: n[4],
                                compress_rle_code_buf_size: n[5],
                                new_data_diff_size: n[6],
                                compress_new_data_diff_size: n[7],
                                head_end_pos,
                                cover_end_pos: cover_end_pos as i64,
                            },
                            left,
                        ),
                    )
                }
            },
        },
    }
}

/// One where a chunk is compressed, and nothing where not.
pub open spec fn one_if_compressed(size: i64) -> int {
    if size > 1 {
        1
    } else {
        0
    }
}

/// How many of the four chunks are compressed.
pub open spec fn compressed_chunks(info: DiffChunkInfo) -> int {
    one_if_compressed(info.compress_cover_buf_size) + one_if_compressed(
        info.compress_rle_ctrl_buf_size,
    ) + one_if_compressed(info.compress_rle_code_buf_size) + one_if_compressed(
        info.compress_new_data_diff_size,
    )
}

/// The header of a patch whose parts are compressed apart, behind a signature
/// that says `header`.
pub open spec fn non_single_of(rest: Seq<u8>, pos: int, path: Seq<char>, header: HeaderModel) -> Result<
    (HeaderModel, Seq<u8>),
    PatchError,
> {
    match longs_of(rest, 2) {
        Err(e) => Err(e),
        Ok((n, left)) => match chunk_info_of(
            left,
            pos + rest.len() - left.len(),
            as_signed(pos),
        ) {
            Err(e) => Err(e),
            Ok((chunk_info, left)) => Ok(
                (
                    HeaderModel {
                        patch_path: path,
                        new_data_size: n[0],
                        old_data_size: n[1],
                        chunk_info,
                        compressed_count: compressed_chunks(chunk_info) as i64,
                        ..header
                    },
                    left,
                ),
            ),
        },
    }
}

/// The header of a single-compressed patch that starts at `hdiff_data_offset`.
pub open spec fn single_of(
    rest: Seq<u8>,
    pos: int,
    path: Seq<char>,
    header: HeaderModel,
    hdiff_data_offset: i64,
) -> Result<(HeaderModel, Seq<u8>), PatchError> {
    match longs_of(rest, 6) {
        Err(e) => Err(e),
        Ok((n, left)) => {
            let diff_data_pos = as_signed(pos + rest.len() - left.len()) - hdiff_data_offset;
            if !fits(diff_data_pos) {
                Err(PatchError::Malformed)
            } else {
                Ok(
                    (
                        HeaderModel {
                            patch_path: path,
                            new_data_size: n[0],
                            old_data_size: n[1],
                            chunk_info: DiffChunkInfo { cover_count: n[2], ..header.chunk_info },
                            step_mem_size: n[3],
                            single_chunk_info: DiffSingleChunkInfo {
                                uncompressed_size: n[4],
                                compressed_size: n[5],
                                diff_data_pos: diff_data_pos as i64,
                            },
                            compressed_count: if n[5] > 0 {
                                1
                            } else {
                                0
                            },
                            ..header
                        },
                        left,
                    ),
                )
            }
        },
    }
}

/// The last byte of a number.
pub open spec fn low_byte(v: i64) -> u8 {
    (as_unsigned(v) % 256) as u8
}

/// The sizes of the head of a directory patch, in bytes at `pos` of it, behind
/// counts that say `info`.
pub open spec fn head_sizes_of(
    rest: Seq<u8>,
    pos: int,
    header: HeaderModel,
    info: DataReferenceInfo,
) -> Result<((HeaderModel, DataReferenceInfo), Seq<u8>), PatchError> {
    match longs_of(rest, 3) {
        Err(e) => Err(e),
        Ok((n, left)) => Ok(
            (
                (
                    HeaderModel { dir_data_is_compressed: n[1] > 0, ..header },
                    DataReferenceInfo {
                        compress_size_begin_pos: as_signed(pos),
                        head_data_size: n[0],
                        head_data_compressed_size: n[1],
                        checksum_byte_size: low_byte(n[2]),
                        checksum_offset: as_signed(pos + rest.len() - left.len()),
                        ..info
                    },
                ),
                left,
            ),
        ),
    }
}

/// The counts of a directory patch, with all else as `info` has it.
pub open spec fn counts_of(rest: Seq<u8>, info: DataReferenceInfo) -> Result<
    (DataReferenceInfo, Seq<u8>),
    PatchError,
> {
    match longs_of(rest, 10) {
        Err(e) => Err(e),
        Ok((n, left)) => match int_7bit_of(left) {
            Err(e) => Err(e),
            Ok((new_execute_count, left)) => match longs_of(left, 3) {
                Err(e) => Err(e),
                Ok((m, left)) => Ok(
                    (
                        DataReferenceInfo {
                            input_dir_count: n[0],
                            input_sum_size: n[1],
                            output_dir_count: n[2],
                            output_sum_size: n[3],
                            input_ref_file_count: n[4],
                            input_ref_file_size: n[5],
                            output_ref_file_count: n[6],
                            output_ref_file_size: n[7],
                            same_file_pair_count: n[8],
                            same_file_size: n[9],
                            new_execute_count,
                            private_reserved_data_size: m[0],
                            private_extern_data_size: m[1],
                            extern_data_size: m[2],
                            ..info
                        },
                        left,
                    ),
                ),
            },
        },
    }
}

/// What stands in a directory patch between its signature and its checksums, with
/// all else as `header` and `info` have it.
pub open spec fn references_of(
    rest: Seq<u8>,
    pos: int,
    header: HeaderModel,
    info: DataReferenceInfo,
) -> Result<((HeaderModel, DataReferenceInfo), Seq<u8>), PatchError> {
    match boolean_of(rest) {
        Err(e) => Err(e),
        Ok((is_input_dir, left)) => match boolean_of(left) {
            Err(e) => Err(e),
            Ok((is_output_dir, left)) => match counts_of(left, info) {
                Err(e) => Err(e),
                Ok((info, left)) => head_sizes_of(
                    left,
                    pos + rest.len() - left.len(),
                    HeaderModel { is_input_dir, is_output_dir, ..header },
                    info,
                ),
            },
        },
    }
}

/// How many bytes the checksums of a directory patch take up.
pub open spec fn checksums_size(info: DataReferenceInfo) -> int {
    if info.checksum_byte_size * 4 < SKIP_LIMIT {
        info.checksum_byte_size * 4
    } else {
        SKIP_LIMIT as int
    }
}

/// Where the parts of a directory patch of `total` bytes stand, the first of
/// them at `pos`.
pub open spec fn places_of(info: DataReferenceInfo, pos: int, total: int) -> Result<
    DataReferenceInfo,
    PatchError,
> {
    let head = as_signed(pos);
    let private_extern = head + stored_size(info.head_data_compressed_size, info.head_data_size);
    let extern_data = private_extern + info.private_extern_data_size;
    let hdiff = extern_data + info.extern_data_size;
    let hdiff_size = as_signed(total) - hdiff;
    if !fits(private_extern) || !fits(extern_data) || !fits(hdiff) || !fits(hdiff_size) {
        Err(PatchError::Malformed)
    } else {
        Ok(
            DataReferenceInfo {
                head_data_offset: head,
                private_extern_data_offset: private_extern as i64,
                extern_data_offset: extern_data as i64,
                hdiff_data_offset: hdiff as i64,
                hdiff_data_size: hdiff_size as i64,
                ..info
            },
        )
    }
}

/// The header of the patch inside of a directory patch, behind its signature
/// `line`, in bytes at `pos`.
pub open spec fn inner_of(
    line: Seq<char>,
    rest: Seq<u8>,
    pos: int,
    path: Seq<char>,
    header: HeaderModel,
    hdiff_data_offset: i64,
) -> Result<(HeaderModel, Seq<u8>), PatchError> {
    let parts = parts_of(line);
    if parts[0] == SINGLE_COMPRESSED_HEAD@ {
        single_of(
            rest,
            pos,
            path,
            HeaderModel { is_single_compressed_diff: true, ..header },
            hdiff_data_offset,
        )
    } else {
        let comp_mode = if parts.len() > 1 && parts[1].len() > 0 {
            compression_named(lowercase(parts[1]))
        } else {
            Some(header.comp_mode)
        };
        match comp_mode {
            None => Err(PatchError::UnknownCompression),
            Some(comp_mode) => non_single_of(
                rest,
                pos,
                path,
                HeaderModel {
                    is_single_compressed_diff: false,
                    comp_mode,
                    header_magic: parts[0],
                    ..header
                },
            ),
        }
    }
}

/// The header of the patch inside of a directory patch, with its signature, and
/// where it ends.
pub open spec fn identified_of(
    data: Seq<u8>,
    path: Seq<char>,
    header: HeaderModel,
    hdiff_data_offset: i64,
) -> Result<(HeaderModel, int), PatchError> {
    if hdiff_data_offset < 0 {
        Err(PatchError::InvalidSeek)
    } else {
        let rest = bytes_from(data, hdiff_data_offset as int);
        match string_to_null_of(rest) {
            Err(e) => Err(e),
            Ok((line, after_line)) => match inner_of(
                line,
                after_line,
                hdiff_data_offset + rest.len() - after_line.len(),
                path,
                header,
                hdiff_data_offset,
            ) {
                Err(e) => Err(e),
                Ok((header, left)) => Ok((header, hdiff_data_offset + rest.len() - left.len())),
            },
        }
    }
}

/// The header of a directory patch, in bytes at `pos` of it, behind a signature
/// that says `header`, and where it ends.
pub open spec fn dir_header_of(data: Seq<u8>, pos: int, path: Seq<char>, header: HeaderModel) -> Result<
    (HeaderModel, DataReferenceInfo, int),
    PatchError,
> {
    let rest = bytes_from(data, pos);
    match references_of(rest, pos, header, DataReferenceInfo::zero()) {
        Err(e) => Err(e),
        Ok(((header, info), left)) => {
            let checksum_pos = pos + rest.len() - left.len();
            let head_pos = checksum_pos + checksums_size(info);
            if info.checksum_byte_size > 0 && head_pos > i64::MAX {
                Err(PatchError::InvalidSeek)
            } else {
                match places_of(info, head_pos, data.len() as int) {
                    Err(e) => Err(e),
                    Ok(info) => match identified_of(data, path, header, info.hdiff_data_offset) {
                        Err(e) => Err(e),
                        Ok((header, end)) => Ok((header, info, end)),
                    },
                }
            }
        },
    }
}

/// The header of a patch, in bytes at `pos` of it: whether it is a directory
/// patch, what the header says and where it ends.
pub open spec fn header_of(data: Seq<u8>, pos: int, path: Seq<char>) -> Result<
    (bool, HeaderModel, DataReferenceInfo, int),
    PatchError,
> {
    let rest = bytes_from(data, pos);
    match string_to_null_of(rest) {
        Err(e) => Err(e),
        Ok((line, after_line)) => match signature_of(line) {
            Err(e) => Err(e),
            Ok((is_dir, header)) => {
                let line_end = pos + rest.len() - after_line.len();
                if is_dir {
                    match dir_header_of(data, line_end, path, header) {
                        Err(e) => Err(e),
                        Ok((header, info, end)) => Ok((true, header, info, end)),
                    }
                } else {
                    let found = if header.is_single_compressed_diff {
                        single_of(after_line, line_end, path, header, 0)
                    } else {
                        non_single_of(after_line, line_end, path, header)
                    };
                    match found {
                        Err(e) => Err(e),
                        Ok((header, left)) => Ok(
                            (
                                false,
                                header,
                                DataReferenceInfo::zero(),
                                pos + rest.len() - left.len(),
                            ),
                        ),
                    }
                }
            },
        },
    }
}

/// Every header that is read names the path that it was read for and counts at
/// most four compressed parts, and that of a file patch knows of no directories.
pub proof fn law_header_of_path(data: Seq<u8>, pos: int, path: Seq<char>)
    ensures
        header_of(data, pos, path) matches Ok((is_dir, header, info, _)) ==> {
            &&& header.patch_path == path
            &&& 0 <= header.compressed_count <= 4
            &&& !is_dir ==> {
                &&& info == DataReferenceInfo::zero()
                &&& !header.is_input_dir && !header.is_output_dir
            }
        },
{
}

/// The reader of headers.
pub struct Header;

/// Whether a stream has moved on over its own bytes.
pub open spec fn moved_on(before: ByteStream, after: ByteStream) -> bool {
    &&& after.data@ == before.data@
    &&& after.position() == before.position() + before.rest().len() - after.rest().len()
}

impl Header {
    /// Reads what a signature says into `header_info`.
    fn read_signature(line: &str, header_info: &mut HeaderInfo) -> (r: Result<bool, PatchError>)
        requires
            old(header_info).deep_view() == HeaderModel::zero(),
        ensures
            final(header_info).deep_view() == signature_left(line@),
            match r {
                Ok(is_dir) => signature_of(line@) == Ok::<(bool, HeaderModel), PatchError>(
                    (is_dir, final(header_info).deep_view()),
                ),
                Err(e) => signature_of(line@) == Err::<(bool, HeaderModel), PatchError>(e),
            },
    {
        let head_len = HDIFF_HEAD.unicode_len();
        if line.as_bytes().len() > SIGNATURE_LIMIT || line.unicode_len() < head_len || !same_text(
            line.substring_char(0, head_len),
            HDIFF_HEAD,
        ) {
            assert(line@.len() >= head_len ==> line@.subrange(0, head_len as int) =~= line@.take(
                head_len as int,
            ));
            return Err(PatchError::NotHdiff);
        }
        assert(line@.subrange(0, head_len as int) =~= line@.take(head_len as int));
        let (parts, delims) = split_parts(line, 3);
        let ghost all = parts_of(line@);
        proof {
            law_parts_join(line@);
            lemma_encoding_no_shorter(line@);
            assert(all.len() <= 3 ==> all.take(3) =~= all || all.len() < 3);
        }
        if delims == 1 {
            assert(parts.deep_view()[0] == parts@[0]@ && parts.deep_view()[1] == parts@[1]@);
            let version = try_get_version(parts[0].as_str())?;
            if version != 13 && version != 20 {
                return Err(PatchError::UnsupportedVersion { version });
            }
            header_info.header_magic = parts[0].as_str().to_owned();
            header_info.comp_mode =
            match CompressionMode::from_str(parts[1].as_str()) {
                Ok(mode) => mode,
                Err(_) => return Err(PatchError::UnknownCompression),
            };
            header_info.is_single_compressed_diff = version == 20;
            return Ok(false);
        }
        if delims != 2 {
            return Err(PatchError::IncompleteHeader { parts: delims + 1 });
        }
        assert(parts.deep_view()[0] == parts@[0]@ && parts.deep_view()[1] == parts@[1]@
            && parts.deep_view()[2] == parts@[2]@);
        let version = try_get_version(parts[0].as_str())?;
        if version != 19 {
            return Err(PatchError::UnsupportedDirVersion { version });
        }
        if !parts[1].as_str().is_empty() {
            header_info.comp_mode =
            match CompressionMode::from_str(parts[1].as_str()) {
                Ok(mode) => mode,
                Err(_) => return Err(PatchError::UnknownCompression),
            };
        }
        if !parts[2].as_str().is_empty() {
            header_info.checksum_mode =
            match ChecksumMode::from_str(parts[2].as_str()) {
                Ok(mode) => mode,
                Err(_) => return Err(PatchError::UnknownChecksum),
            };
        }
        Ok(true)
    }

    /// Reads the sizes of the four chunks of a patch.
    fn get_diff_chunk_info(
        sr: &mut ByteStream,
        chunk_info: &mut DiffChunkInfo,
        types_end_pos: i64,
    ) -> (r: Result<(), PatchError>)
        ensures
            final(sr).data@ == old(sr).data@,
            *final(chunk_info) == chunk_info_left(
                old(sr).rest(),
                old(sr).position(),
                types_end_pos,
            ),
            ({
                let want = chunk_info_of(old(sr).rest(), old(sr).position(), types_end_pos);
                match r {
                    Ok(_) => {
                        &&& moved_on(*old(sr), *final(sr))
                        &&& want == Ok::<_, PatchError>((*final(chunk_info), final(sr).rest()))
                    },
                    Err(e) => want == Err::<(DiffChunkInfo, Seq<u8>), PatchError>(e),
                }
            }),
    {
        *chunk_info = DiffChunkInfo::default();
        chunk_info.types_end_pos = types_end_pos;
        chunk_info.cover_count = read_long_7bit(sr)?;
        chunk_info.compress_size_begin_pos = to_signed(sr.pos);
        let ghost sizes = sr.rest();
        let (n, stopped) = read_numbers(sr, 8);
        proof {
            lemma_longs_len(sizes, 8);
        }
        chunk_info.cover_buf_size = pick(&n, 0, 0);
        chunk_info.compress_cover_buf_size = pick(&n, 1, 0);
        chunk_info.rle_ctrl_buf_size = pick(&n, 2, 0);
        chunk_info.compress_rle_ctrl_buf_size = pick(&n, 3, 0);
        chunk_info.rle_code_buf_size = pick(&n, 4, 0);
        chunk_info.compress_rle_code_buf_size = pick(&n, 5, 0);
        chunk_info.new_data_diff_size = pick(&n, 6, 0);
        chunk_info.compress_new_data_diff_size = pick(&n, 7, 0);
        if let Some(e) = stopped {
            return Err(e);
        }
        chunk_info.head_end_pos = to_signed(sr.pos);
        let stored = if chunk_info.compress_cover_buf_size > 0 {
            chunk_info.compress_cover_buf_size
        } else {
            chunk_info.cover_buf_size
        };
        chunk_info.cover_end_pos =
        match chunk_info.head_end_pos.checked_add(stored) {
            Some(end) => end,
            None => return Err(PatchError::Malformed),
        };
        Ok(())
    }

    fn count_if_compressed(size: i64) -> (r: i64)
        ensures
            r == one_if_compressed(size),
    {
        if size > 1 {
            1
        } else {
            0
        }
    }

    /// Reads the header of a patch whose parts are compressed apart.
    fn try_read_non_single_file_header_info(
        sr: &mut ByteStream,
        diff_path: &str,
        header_info: &mut HeaderInfo,
    ) -> (r: Result<(), PatchError>)
        ensures
            final(sr).data@ == old(sr).data@,
            final(header_info).deep_view() == non_single_left(
                old(sr).rest(),
                old(sr).position(),
                diff_path@,
                old(header_info).deep_view(),
            ),
            ({
                let want = non_single_of(
                    old(sr).rest(),
                    old(sr).position(),
                    diff_path@,
                    old(header_info).deep_view(),
                );
                match r {
                    Ok(_) => {
                        &&& moved_on(*old(sr), *final(sr))
                        &&& want == Ok::<_, PatchError>(
                            (final(header_info).deep_view(), final(sr).rest()),
                        )
                    },
                    Err(e) => want == Err::<(HeaderModel, Seq<u8>), PatchError>(e),
                }
            }),
    {
        header_info.patch_path = diff_path.to_owned();
        let types_end_pos = to_signed(sr.pos);
        let ghost rest = sr.rest();
        let (n, stopped) = read_numbers(sr, 2);
        proof {
            lemma_longs_len(rest, 2);
        }
        header_info.new_data_size = pick(&n, 0, header_info.new_data_size);
        header_info.old_data_size = pick(&n, 1, header_info.old_data_size);
        if let Some(e) = stopped {
            return Err(e);
        }
        Self::get_diff_chunk_info(sr, &mut header_info.chunk_info, types_end_pos)?;
        let chunk_info = header_info.chunk_info;
        header_info.compressed_count =
        Self::count_if_compressed(chunk_info.compress_cover_buf_size) + Self::count_if_compressed(
            chunk_info.compress_rle_ctrl_buf_size,
        ) + Self::count_if_compressed(chunk_info.compress_rle_code_buf_size)
            + Self::count_if_compressed(chunk_info.compress_new_data_diff_size);
        Ok(())
    }

    /// Reads the header of a single-compressed patch.
    fn try_read_single_file_header_info(
        sr: &mut ByteStream,
        diff_path: &str,
        header_info: &mut HeaderInfo,
        reference_info: &DataReferenceInfo,
    ) -> (r: Result<(), PatchError>)
        ensures
            final(sr).data@ == old(sr).data@,
            final(header_info).deep_view() == single_left(
                old(sr).rest(),
                old(sr).position(),
                diff_path@,
                old(header_info).deep_view(),
                reference_info.hdiff_data_offset,
            ),
            ({
                let want = single_of(
                    old(sr).rest(),
                    old(sr).position(),
                    diff_path@,
                    old(header_info).deep_view(),
                    reference_info.hdiff_data_offset,
                );
                match r {
                    Ok(_) => {
                        &&& moved_on(*old(sr), *final(sr))
                        &&& want == Ok::<_, PatchError>(
                            (final(header_info).deep_view(), final(sr).rest()),
                        )
                    },
                    Err(e) => want == Err::<(HeaderModel, Seq<u8>), PatchError>(e),
                }
            }),
    {
        header_info.patch_path = diff_path.to_owned();
        header_info.single_chunk_info = DiffSingleChunkInfo::default();
        let ghost rest = sr.rest();
        let (n, stopped) = read_numbers(sr, 6);
        proof {
            lemma_longs_len(rest, 6);
        }
        header_info.new_data_size = pick(&n, 0, header_info.new_data_size);
        header_info.old_data_size = pick(&n, 1, header_info.old_data_size);
        header_info.chunk_info.cover_count = pick(&n, 2, header_info.chunk_info.cover_count);
        header_info.step_mem_size = pick(&n, 3, header_info.step_mem_size);
        header_info.single_chunk_info.uncompressed_size = pick(&n, 4, 0);
        header_info.single_chunk_info.compressed_size = pick(&n, 5, 0);
        if let Some(e) = stopped {
            return Err(e);
        }
        header_info.single_chunk_info.diff_data_pos =
        match to_signed(sr.pos).checked_sub(reference_info.hdiff_data_offset) {
            Some(pos) => pos,
            None => return Err(PatchError::Malformed),
        };
        header_info.compressed_count = if header_info.single_chunk_info.compressed_size > 0 {
            1
        } else {
            0
        };
        Ok(())
    }

    /// Reads the counts of a directory patch.
    fn read_counts(sr: &mut ByteStream, info: &mut DataReferenceInfo) -> (r: Result<
        (),
        PatchError,
    >)
        ensures
            final(sr).data@ == old(sr).data@,
            *final(info) == counts_left(old(sr).rest(), *old(info)),
            match r {
                Ok(_) => {
                    &&& moved_on(*old(sr), *final(sr))
                    &&& counts_of(old(sr).rest(), *old(info)) == Ok::<_, PatchError>(
                        (*final(info), final(sr).rest()),
                    )
                },
                Err(e) => counts_of(old(sr).rest(), *old(info)) == Err::<
                    (DataReferenceInfo, Seq<u8>),
                    PatchError,
                >(e),
            },
    {
        let ghost rest = sr.rest();
        let (n, stopped) = read_numbers(sr, 10);
        proof {
            lemma_longs_len(rest, 10);
        }
        info.input_dir_count = pick(&n, 0, info.input_dir_count);
        info.input_sum_size = pick(&n, 1, info.input_sum_size);
        info.output_dir_count = pick(&n, 2, info.output_dir_count);
        info.output_sum_size = pick(&n, 3, info.output_sum_size);
        info.input_ref_file_count = pick(&n, 4, info.input_ref_file_count);
        info.input_ref_file_size = pick(&n, 5, info.input_ref_file_size);
        info.output_ref_file_count = pick(&n, 6, info.output_ref_file_count);
        info.output_ref_file_size = pick(&n, 7, info.output_ref_file_size);
        info.same_file_pair_count = pick(&n, 8, info.same_file_pair_count);
        info.same_file_size = pick(&n, 9, info.same_file_size);
        if let Some(e) = stopped {
            return Err(e);
        }
        info.new_execute_count = read_int_7bit(sr)?;
        let ghost rest = sr.rest();
        let (m, stopped) = read_numbers(sr, 3);
        proof {
            lemma_longs_len(rest, 3);
        }
        info.private_reserved_data_size = pick(&m, 0, info.private_reserved_data_size);
        info.private_extern_data_size = pick(&m, 1, info.private_extern_data_size);
        info.extern_data_size = pick(&m, 2, info.extern_data_size);
        match stopped {
            Some(e) => Err(e),
            None => Ok(()),
        }
    }

    /// Reads the sizes of the head of a directory patch.
    fn read_head_sizes(
        sr: &mut ByteStream,
        header_info: &mut HeaderInfo,
        info: &mut DataReferenceInfo,
    ) -> (r: Result<(), PatchError>)
        ensures
            final(sr).data@ == old(sr).data@,
            (final(header_info).deep_view(), *final(info)) == head_sizes_left(
                old(sr).rest(),
                old(sr).position(),
                old(header_info).deep_view(),
                *old(info),
            ),
            ({
                let want = head_sizes_of(
                    old(sr).rest(),
                    old(sr).position(),
                    old(header_info).deep_view(),
                    *old(info),
                );
                match r {
                    Ok(_) => {
                        &&& moved_on(*old(sr), *final(sr))
                        &&& want == Ok::<_, PatchError>(
                            ((final(header_info).deep_view(), *final(info)), final(sr).rest()),
                        )
                    },
                    Err(e) => want matches Err(want_e) && e == want_e,
                }
            }),
    {
        info.compress_size_begin_pos = to_signed(sr.pos);
        let ghost rest = sr.rest();
        let (n, stopped) = read_numbers(sr, 3);
        proof {
            lemma_longs_len(rest, 3);
        }
        info.head_data_size = pick(&n, 0, info.head_data_size);
        info.head_data_compressed_size = pick(&n, 1, info.head_data_compressed_size);
        if n.len() > 2 {
            info.checksum_byte_size = (to_unsigned(n[2]) % 256) as u8;
        }
        if let Some(e) = stopped {
            return Err(e);
        }
        header_info.dir_data_is_compressed = info.head_data_compressed_size > 0;
        info.checksum_offset = to_signed(sr.pos);
        Ok(())
    }

    /// Reads what stands in a directory patch between its signature and its
    /// checksums, and passes over these.
    fn try_read_header_and_reference_info(
        sr: &mut ByteStream,
        header_info: &mut HeaderInfo,
        reference_info: &mut DataReferenceInfo,
    ) -> (r: Result<(), PatchError>)
        ensures
            final(sr).data@ == old(sr).data@,
            ({
                let rest = old(sr).rest();
                let want = references_of(
                    rest,
                    old(sr).position(),
                    old(header_info).deep_view(),
                    *old(reference_info),
                );
                let header = final(header_info).deep_view();
                let info = *final(reference_info);
                match want {
                    Err(want_e) => {
                        &&& r == Err::<(), PatchError>(want_e)
                        &&& (header, info) == references_left(
                            rest,
                            old(sr).position(),
                            old(header_info).deep_view(),
                            *old(reference_info),
                        )
                    },
                    Ok((known, left)) => {
                        let end = old(sr).pos + rest.len() - left.len() + checksums_size(info);
                        &&& (header, info) == known
                        &&& match r {
                            Ok(_) => {
                                &&& final(sr).pos == end
                                &&& info.checksum_byte_size > 0 ==> end <= i64::MAX
                            },
                            Err(e) => {
                                &&& e == PatchError::InvalidSeek
                                &&& info.checksum_byte_size > 0
                                &&& end > i64::MAX
                            },
                        }
                    },
                }
            }),
    {
        header_info.is_input_dir = read_boolean(sr)?;
        header_info.is_output_dir = read_boolean(sr)?;
        Self::read_counts(sr, reference_info)?;
        Self::read_head_sizes(sr, header_info, reference_info)?;
        if reference_info.checksum_byte_size > 0 {
            Self::try_seek_header(sr, reference_info.checksum_byte_size as i32 * 4)?;
        }
        Ok(())
    }

    /// Passes over some bytes of a header.
    fn try_seek_header(sr: &mut ByteStream, skip_long_size: i32) -> (r: Result<(), PatchError>)
        requires
            skip_long_size >= 0,
        ensures
            final(sr).data@ == old(sr).data@,
            ({
                let pos = old(sr).pos + if skip_long_size < SKIP_LIMIT {
                    skip_long_size
                } else {
                    SKIP_LIMIT
                };
                match r {
                    Ok(_) => final(sr).pos == pos && pos <= i64::MAX,
                    Err(e) => e == PatchError::InvalidSeek && pos > i64::MAX,
                }
            }),
    {
        let len: i32 = if skip_long_size < SKIP_LIMIT {
            skip_long_size
        } else {
            SKIP_LIMIT
        };
        sr.seek_current(len as i64)
    }

    /// Finds where the parts of a directory patch stand, and reads the header of
    /// the patch inside of it.
    fn try_read_extern_reference_info(
        sr: &mut ByteStream,
        diff_path: &str,
        header_info: &mut HeaderInfo,
        reference_info: &mut DataReferenceInfo,
    ) -> (r: Result<(), PatchError>)
        ensures
            final(sr).data@ == old(sr).data@,
            (final(header_info).deep_view(), *final(reference_info)) == extern_left(
                old(sr).data@,
                old(sr).pos as int,
                diff_path@,
                old(header_info).deep_view(),
                *old(reference_info),
            ),
            ({
                let total = old(sr).data@.len() as int;
                let want = match places_of(*old(reference_info), old(sr).pos as int, total) {
                    Err(e) => Err(e),
                    Ok(info) => match identified_of(
                        old(sr).data@,
                        diff_path@,
                        old(header_info).deep_view(),
                        info.hdiff_data_offset,
                    ) {
                        Err(e) => Err(e),
                        Ok((header, end)) => Ok((header, info, end)),
                    },
                };
                match r {
                    Ok(_) => want == Ok::<_, PatchError>(
                        (
                            final(header_info).deep_view(),
                            *final(reference_info),
                            final(sr).position(),
                        ),
                    ),
                    Err(e) => want == Err::<(HeaderModel, DataReferenceInfo, int), PatchError>(e),
                }
            }),
    {
        let head: i64 = to_signed(sr.pos);
        let stored = if reference_info.head_data_compressed_size > 0 {
            reference_info.head_data_compressed_size
        } else {
            reference_info.head_data_size
        };
        let private_extern: i128 = head as i128 + stored as i128;
        let extern_data: i128 = private_extern + reference_info.private_extern_data_size as i128;
        let hdiff: i128 = extern_data + reference_info.extern_data_size as i128;
        let hdiff_size: i128 = to_signed(sr.data.len() as u64) as i128 - hdiff;
        if !Self::in_range(private_extern) || !Self::in_range(extern_data) || !Self::in_range(hdiff)
            || !Self::in_range(hdiff_size) {
            return Err(PatchError::Malformed);
        }
        reference_info.head_data_offset = head;
        reference_info.private_extern_data_offset = private_extern as i64;
        reference_info.extern_data_offset = extern_data as i64;
        reference_info.hdiff_data_offset = hdiff as i64;
        reference_info.hdiff_data_size = hdiff_size as i64;
        Self::try_identify_diff_type(sr, diff_path, header_info, reference_info)
    }

    fn in_range(v: i128) -> (r: bool)
        ensures
            r == fits(v as int),
    {
        i64::MIN as i128 <= v && v <= i64::MAX as i128
    }

    /// Reads the header of the patch inside of a directory patch.
    fn try_identify_diff_type(
        sr: &mut ByteStream,
        diff_path: &str,
        header_info: &mut HeaderInfo,
        reference_info: &DataReferenceInfo,
    ) -> (r: Result<(), PatchError>)
        ensures
            final(sr).data@ == old(sr).data@,
            final(header_info).deep_view() == identified_left(
                old(sr).data@,
                diff_path@,
                old(header_info).deep_view(),
                reference_info.hdiff_data_offset,
            ),
            ({
                let want = identified_of(
                    old(sr).data@,
                    diff_path@,
                    old(header_info).deep_view(),
                    reference_info.hdiff_data_offset,
                );
                match r {
                    Ok(_) => want == Ok::<_, PatchError>(
                        (final(header_info).deep_view(), final(sr).position()),
                    ),
                    Err(e) => want == Err::<(HeaderModel, int), PatchError>(e),
                }
            }),
    {
        sr.seek_start(to_unsigned(reference_info.hdiff_data_offset))?;
        let line = read_string_to_null(sr)?;
        let (parts, delims) = split_parts(line.as_str(), 2);
        let ghost all = parts_of(line@);
        proof {
            law_parts_join(line@);
            assert(parts.deep_view().len() == parts@.len());
            assert(parts.deep_view()[0] == parts@[0]@);
            assert(parts.deep_view()[0] == all[0]);
            if delims > 0 {
                assert(parts.deep_view()[1] == parts@[1]@);
                assert(parts.deep_view()[1] == all[1]);
            }
        }
        header_info.is_single_compressed_diff = same_text(
            parts[0].as_str(),
            SINGLE_COMPRESSED_HEAD,
        );
        if header_info.is_single_compressed_diff {
            return Self::try_read_single_file_header_info(
                sr,
                diff_path,
                header_info,
                reference_info,
            );
        }
        if delims > 0 && !parts[1].as_str().is_empty() {
            header_info.comp_mode =
            match CompressionMode::from_str(parts[1].as_str()) {
                Ok(mode) => mode,
                Err(_) => return Err(PatchError::UnknownCompression),
            };
        }
        header_info.header_magic = parts[0].as_str().to_owned();
        Self::try_read_non_single_file_header_info(sr, diff_path, header_info)
    }

    /// Reads the header of a patch from where the stream stands, and tells
    /// whether it is a directory patch. Where it cannot be read whole, the header and
    /// the counts hold what was read of it.
    pub fn try_parse_header_info(
        sr: &mut ByteStream,
        diff_path: &str,
        header_info: &mut HeaderInfo,
        reference_info: &mut DataReferenceInfo,
    ) -> (r: Result<bool, PatchError>)
        ensures
            final(sr).data@ == old(sr).data@,
            (final(header_info).deep_view(), *final(reference_info)) == header_left(
                old(sr).data@,
                old(sr).pos as int,
                diff_path@,
            ),
            ({
                let want = header_of(old(sr).data@, old(sr).pos as int, diff_path@);
                match r {
                    Ok(is_dir) => want == Ok::<_, PatchError>(
                        (
                            is_dir,
                            final(header_info).deep_view(),
                            *final(reference_info),
                            final(sr).position(),
                        ),
                    ),
                    Err(e) => want == Err::<
                        (bool, HeaderModel, DataReferenceInfo, int),
                        PatchError,
                    >(e),
                }
            }),
    {
        *header_info = HeaderInfo::default();
        *reference_info = DataReferenceInfo::default();
        let line = read_string_to_null(sr)?;
        let is_patch_dir = Self::read_signature(line.as_str(), header_info)?;
        if is_patch_dir {
            Self::try_read_header_and_reference_info(sr, header_info, reference_info)?;
            Self::try_read_extern_reference_info(sr, diff_path, header_info, reference_info)?;
        } else if header_info.is_single_compressed_diff {
            Self::try_read_single_file_header_info(sr, diff_path, header_info, reference_info)?;
        } else {
            Self::try_read_non_single_file_header_info(sr, diff_path, header_info)?;
        }
        Ok(is_patch_dir)
    }
}

} // verus!
