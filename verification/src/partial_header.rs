//! What a header holds once reading it has ended, also where it ended too soon: all
//! that was read before.
use crate::error::PatchError;
use crate::header::{
    checksum_or_not, checksums_size, chunk_info_of, compressed_chunks, counts_of, dir_header_of,
    header_of, low_byte, named_or_not, non_single_of, places_of, references_of, signature_of,
    single_of, starts_as_hdiff, stored_size, SIGNATURE_LIMIT, SINGLE_COMPRESSED_HEAD,
};
use crate::parser::{
    boolean_of, bytes_from, int_7bit_of, lemma_longs_len, long_7bit_of, longs_of, read_long_7bit,
    string_to_null_of, ByteSource, ByteStream,
};
use crate::signature::{parts_of, version_of};
use crate::structs::{
    compression_named, ChecksumMode, DataReferenceInfo, DiffChunkInfo, DiffSingleChunkInfo,
    HeaderModel,
};
use crate::text::lowercase;
use crate::varint::{as_signed, fits};
use vstd::prelude::*;
use vstd::utf8::encode_utf8;

verus! {

/// Those of `n` numbers at the front of `rest` that can be read.
pub open spec fn numbers_read(rest: Seq<u8>, n: int) -> Seq<i64>
    decreases n,
{
    if n <= 0 {
        Seq::empty()
    } else {
        match longs_of(rest, n) {
            Ok((numbers, _)) => numbers,
            Err(_) => numbers_read(rest, n - 1),
        }
    }
}

/// The number at `i` where it was read, and another where it was not.
pub open spec fn number_or(numbers: Seq<i64>, i: int, other: i64) -> i64 {
    if i < numbers.len() {
        numbers[i]
    } else {
        other
    }
}

proof fn lemma_numbers_stop(rest: Seq<u8>, i: int, n: int)
    requires
        0 <= i < n,
        longs_of(rest, i) is Ok,
        longs_of(rest, i + 1) is Err,
    ensures
        longs_of(rest, n) == longs_of(rest, i + 1),
        numbers_read(rest, n) == (longs_of(rest, i)->Ok_0).0,
    decreases n,
{
    if i + 1 < n {
        lemma_numbers_stop(rest, i, n - 1);
    } else {
        assert(numbers_read(rest, i) =~= (longs_of(rest, i)->Ok_0).0);
    }
}

/// Reads `count` numbers, or those before the first that cannot be read, with the
/// reason why.
pub fn read_numbers(sr: &mut ByteStream, count: u64) -> (r: (Vec<i64>, Option<PatchError>))
    ensures
        final(sr).data@ == old(sr).data@,
        r.0@ == numbers_read(old(sr).rest(), count as int),
        match r.1 {
            None => {
                &&& longs_of(old(sr).rest(), count as int) == Ok::<_, PatchError>(
                    (r.0@, final(sr).rest()),
                )
                &&& final(sr).position() == old(sr).position() + old(sr).rest().len()
                    - final(sr).rest().len()
            },
            Some(e) => longs_of(old(sr).rest(), count as int) == Err::<
                (Seq<i64>, Seq<u8>),
                PatchError,
            >(e),
        },
{
    let ghost rest = sr.rest();
    let mut numbers: Vec<i64> = Vec::new();
    let mut i: u64 = 0;
    while i < count
        invariant
            i <= count,
            rest == old(sr).rest(),
            sr.data@ == old(sr).data@,
            sr.position() == old(sr).position() + rest.len() - sr.rest().len(),
            longs_of(rest, i as int) == Ok::<(Seq<i64>, Seq<u8>), PatchError>(
                (numbers@, sr.rest()),
            ),
        decreases count - i,
    {
        match read_long_7bit(sr) {
            Ok(v) => {
                numbers.push(v);
            },
            Err(e) => {
                proof {
                    lemma_numbers_stop(rest, i as int, count as int);
                }
                return (numbers, Some(e));
            },
        }
        i = i + 1;
    }
    (numbers, None)
}

/// The number at `i` where it was read, and another where it was not.
pub fn pick(numbers: &Vec<i64>, i: usize, other: i64) -> (r: i64)
    ensures
        r == number_or(numbers@, i as int, other),
{
    if i < numbers.len() {
        numbers[i]
    } else {
        other
    }
}

/// What is known of a file patch from the two parts of its signature.
pub open spec fn file_signature_left(parts: Seq<Seq<char>>) -> HeaderModel {
    match version_of(parts[0]) {
        Err(_) => HeaderModel::zero(),
        Ok(version) => if version != 13 && version != 20 {
            HeaderModel::zero()
        } else {
            let named = HeaderModel { header_magic: parts[0], ..HeaderModel::zero() };
            match compression_named(lowercase(parts[1])) {
                None => named,
                Some(comp_mode) => HeaderModel {
                    comp_mode,
                    is_single_compressed_diff: version == 20,
                    ..named
                },
            }
        },
    }
}

/// What is known of a directory patch from the three parts of its signature.
pub open spec fn dir_signature_left(parts: Seq<Seq<char>>) -> HeaderModel {
    match version_of(parts[0]) {
        Err(_) => HeaderModel::zero(),
        Ok(version) => if version != 19 {
            HeaderModel::zero()
        } else {
            match named_or_not(parts[1]) {
                None => HeaderModel::zero(),
                Some(comp_mode) => HeaderModel {
                    comp_mode,
                    checksum_mode: match checksum_or_not(parts[2]) {
                        None => ChecksumMode::Nochecksum,
                        Some(mode) => mode,
                    },
                    ..HeaderModel::zero()
                },
            }
        },
    }
}

/// What is known of a patch from its signature.
pub open spec fn signature_left(line: Seq<char>) -> HeaderModel {
    let parts = parts_of(line);
    if encode_utf8(line).len() > SIGNATURE_LIMIT || !starts_as_hdiff(line) {
        HeaderModel::zero()
    } else if parts.len() == 2 {
        file_signature_left(parts)
    } else if parts.len() != 3 {
        HeaderModel::zero()
    } else {
        dir_signature_left(parts)
    }
}

/// What is known of the four chunks of a patch, from bytes at `pos` of it.
pub open spec fn chunk_info_left(rest: Seq<u8>, pos: int, types_end_pos: i64) -> DiffChunkInfo {
    let start = DiffChunkInfo { types_end_pos, ..DiffChunkInfo::zero() };
    match long_7bit_of(rest) {
        Err(_) => start,
        Ok((cover_count, sizes)) => {
            let n = numbers_read(sizes, 8);
            let sized = DiffChunkInfo {
                cover_count,
                compress_size_begin_pos: as_signed(pos + rest.len() - sizes.len()),
                cover_buf_size: number_or(n, 0, 0),
                compress_cover_buf_size: number_or(n, 1, 0),
                rle_ctrl_buf_size: number_or(n, 2, 0),
                compress_rle_ctrl_buf_size: number_or(n, 3, 0),
                rle_code_buf_size: number_or(n, 4, 0),
                compress_rle_code_buf_size: number_or(n, 5, 0),
                new_data_diff_size: number_or(n, 6, 0),
                compress_new_data_diff_size: number_or(n, 7, 0),
                ..start
            };
            match longs_of(sizes, 8) {
                Err(_) => sized,
                Ok((_, left)) => {
                    let head_end_pos = as_signed(pos + rest.len() - left.len());
                    let cover_end_pos = head_end_pos + stored_size(
                        sized.compress_cover_buf_size,
                        sized.cover_buf_size,
                    );
                    DiffChunkInfo {
                        head_end_pos,
                        cover_end_pos: if fits(cover_end_pos) {
                            cover_end_pos as i64
                        } else {
                            0
                        },
                        ..sized
                    }
                },
            }
        },
    }
}

/// What is known of a patch whose parts are compressed apart, behind a signature that
/// says `header`.
pub open spec fn non_single_left(
    rest: Seq<u8>,
    pos: int,
    path: Seq<char>,
    header: HeaderModel,
) -> HeaderModel {
    let n = numbers_read(rest, 2);
    let sized = HeaderModel {
        patch_path: path,
        new_data_size: number_or(n, 0, header.new_data_size),
        old_data_size: number_or(n, 1, header.old_data_size),
        ..header
    };
    match longs_of(rest, 2) {
        Err(_) => sized,
        Ok((_, left)) => {
            let chunk_pos = pos + rest.len() - left.len();
            let chunk_info = chunk_info_left(left, chunk_pos, as_signed(pos));
            HeaderModel {
                chunk_info,
                compressed_count: if chunk_info_of(left, chunk_pos, as_signed(pos)) is Ok {
                    compressed_chunks(chunk_info) as i64
                } else {
                    header.compressed_count
                },
                ..sized
            }
        },
    }
}

/// What is known of a single-compressed patch that starts at `hdiff_data_offset`.
pub open spec fn single_left(
    rest: Seq<u8>,
    pos: int,
    path: Seq<char>,
    header: HeaderModel,
    hdiff_data_offset: i64,
) -> HeaderModel {
    let n = numbers_read(rest, 6);
    let sized = HeaderModel {
        patch_path: path,
        new_data_size: number_or(n, 0, header.new_data_size),
        old_data_size: number_or(n, 1, header.old_data_size),
        chunk_info: DiffChunkInfo {
            cover_count: number_or(n, 2, header.chunk_info.cover_count),
            ..header.chunk_info
        },
        step_mem_size: number_or(n, 3, header.step_mem_size),
        single_chunk_info: DiffSingleChunkInfo {
            uncompressed_size: number_or(n, 4, 0),
            compressed_size: number_or(n, 5, 0),
            diff_data_pos: 0,
        },
        ..header
    };
    match single_of(rest, pos, path, header, hdiff_data_offset) {
        Err(_) => sized,
        Ok((whole, _)) => HeaderModel {
            single_chunk_info: whole.single_chunk_info,
            compressed_count: whole.compressed_count,
            ..sized
        },
    }
}

/// What is known of the counts of a directory patch, with all else as `info` has it.
pub open spec fn counts_left(rest: Seq<u8>, info: DataReferenceInfo) -> DataReferenceInfo {
    let n = numbers_read(rest, 10);
    let counted = DataReferenceInfo {
        input_dir_count: number_or(n, 0, info.input_dir_count),
        input_sum_size: number_or(n, 1, info.input_sum_size),
        output_dir_count: number_or(n, 2, info.output_dir_count),
        output_sum_size: number_or(n, 3, info.output_sum_size),
        input_ref_file_count: number_or(n, 4, info.input_ref_file_count),
        input_ref_file_size: number_or(n, 5, info.input_ref_file_size),
        output_ref_file_count: number_or(n, 6, info.output_ref_file_count),
        output_ref_file_size: number_or(n, 7, info.output_ref_file_size),
        same_file_pair_count: number_or(n, 8, info.same_file_pair_count),
        same_file_size: number_or(n, 9, info.same_file_size),
        ..info
    };
    match longs_of(rest, 10) {
        Err(_) => counted,
        Ok((_, left)) => match int_7bit_of(left) {
            Err(_) => counted,
            Ok((new_execute_count, left)) => {
                let m = numbers_read(left, 3);
                DataReferenceInfo {
                    new_execute_count,
                    private_reserved_data_size: number_or(m, 0, info.private_reserved_data_size),
                    private_extern_data_size: number_or(m, 1, info.private_extern_data_size),
                    extern_data_size: number_or(m, 2, info.extern_data_size),
                    ..counted
                }
            },
        },
    }
}

/// What is known of the head of a directory patch, from bytes at `pos` of it.
pub open spec fn head_sizes_left(
    rest: Seq<u8>,
    pos: int,
    header: HeaderModel,
    info: DataReferenceInfo,
) -> (HeaderModel, DataReferenceInfo) {
    let n = numbers_read(rest, 3);
    let sized = DataReferenceInfo {
        compress_size_begin_pos: as_signed(pos),
        head_data_size: number_or(n, 0, info.head_data_size),
        head_data_compressed_size: number_or(n, 1, info.head_data_compressed_size),
        checksum_byte_size: if n.len() > 2 {
            low_byte(n[2])
        } else {
            info.checksum_byte_size
        },
        ..info
    };
    match longs_of(rest, 3) {
        Err(_) => (header, sized),
        Ok((_, left)) => (
            HeaderModel {
                dir_data_is_compressed: sized.head_data_compressed_size > 0,
                ..header
            },
            DataReferenceInfo {
                checksum_offset: as_signed(pos + rest.len() - left.len()),
                ..sized
            },
        ),
    }
}

/// What is known of a directory patch from what stands between its signature and its
/// checksums, with all else as `header` and `info` have it.
pub open spec fn references_left(
    rest: Seq<u8>,
    pos: int,
    header: HeaderModel,
    info: DataReferenceInfo,
) -> (HeaderModel, DataReferenceInfo) {
    match boolean_of(rest) {
        Err(_) => (header, info),
        Ok((is_input_dir, left)) => match boolean_of(left) {
            Err(_) => (HeaderModel { is_input_dir, ..header }, info),
            Ok((is_output_dir, left)) => {
                let header = HeaderModel { is_input_dir, is_output_dir, ..header };
                match counts_of(left, info) {
                    Err(_) => (header, counts_left(left, info)),
                    Ok((info, left)) => head_sizes_left(
                        left,
                        pos + rest.len() - left.len(),
                        header,
                        info,
                    ),
                }
            },
        },
    }
}

/// What is known of the patch inside of a directory patch, behind its signature
/// `line`, from bytes at `pos`.
pub open spec fn inner_left(
    line: Seq<char>,
    rest: Seq<u8>,
    pos: int,
    path: Seq<char>,
    header: HeaderModel,
    hdiff_data_offset: i64,
) -> HeaderModel {
    let parts = parts_of(line);
    if parts[0] == SINGLE_COMPRESSED_HEAD@ {
        single_left(
            rest,
            pos,
            path,
            HeaderModel { is_single_compressed_diff: true, ..header },
            hdiff_data_offset,
        )
    } else {
        let apart = HeaderModel { is_single_compressed_diff: false, ..header };
        let comp_mode = if parts.len() > 1 && parts[1].len() > 0 {
            compression_named(lowercase(parts[1]))
        } else {
            Some(header.comp_mode)
        };
        match comp_mode {
            None => apart,
            Some(comp_mode) => non_single_left(
                rest,
                pos,
                path,
                HeaderModel { comp_mode, header_magic: parts[0], ..apart },
            ),
        }
    }
}

/// What is known of the patch inside of a directory patch, with its signature.
pub open spec fn identified_left(
    data: Seq<u8>,
    path: Seq<char>,
    header: HeaderModel,
    hdiff_data_offset: i64,
) -> HeaderModel {
    if hdiff_data_offset < 0 {
        header
    } else {
        let rest = bytes_from(data, hdiff_data_offset as int);
        match string_to_null_of(rest) {
            Err(_) => header,
            Ok((line, after_line)) => inner_left(
                line,
                after_line,
                hdiff_data_offset + rest.len() - after_line.len(),
                path,
                header,
                hdiff_data_offset,
            ),
        }
    }
}

/// What is known of the places of the parts of a directory patch, the first of them at
/// `pos`, and of the patch inside of it.
pub open spec fn extern_left(
    data: Seq<u8>,
    pos: int,
    path: Seq<char>,
    header: HeaderModel,
    info: DataReferenceInfo,
) -> (HeaderModel, DataReferenceInfo) {
    match places_of(info, pos, data.len() as int) {
        Err(_) => (header, info),
        Ok(placed) => (identified_left(data, path, header, placed.hdiff_data_offset), placed),
    }
}

/// What is known of a directory patch from bytes at `pos` of it, behind a signature
/// that says `header`.
pub open spec fn dir_header_left(
    data: Seq<u8>,
    pos: int,
    path: Seq<char>,
    header: HeaderModel,
) -> (HeaderModel, DataReferenceInfo) {
    let rest = bytes_from(data, pos);
    match references_of(rest, pos, header, DataReferenceInfo::zero()) {
        Err(_) => references_left(rest, pos, header, DataReferenceInfo::zero()),
        Ok(((header, info), left)) => {
            let head_pos = pos + rest.len() - left.len() + checksums_size(info);
            if info.checksum_byte_size > 0 && head_pos > i64::MAX {
                (header, info)
            } else {
                extern_left(data, head_pos, path, header, info)
            }
        },
    }
}

/// What is known of a patch from the bytes at `pos` of it, whether its header can be
/// read whole or not.
pub open spec fn header_left(data: Seq<u8>, pos: int, path: Seq<char>) -> (
    HeaderModel,
    DataReferenceInfo,
) {
    let rest = bytes_from(data, pos);
    match string_to_null_of(rest) {
        Err(_) => (HeaderModel::zero(), DataReferenceInfo::zero()),
        Ok((line, after_line)) => match signature_of(line) {
            Err(_) => (signature_left(line), DataReferenceInfo::zero()),
            Ok((is_dir, header)) => {
                let line_end = pos + rest.len() - after_line.len();
                if is_dir {
                    dir_header_left(data, line_end, path, header)
                } else if header.is_single_compressed_diff {
                    (
                        single_left(after_line, line_end, path, header, 0),
                        DataReferenceInfo::zero(),
                    )
                } else {
                    (
                        non_single_left(after_line, line_end, path, header),
                        DataReferenceInfo::zero(),
                    )
                }
            },
        },
    }
}

proof fn lemma_chunk_info_left(rest: Seq<u8>, pos: int, types_end_pos: i64)
    ensures
        chunk_info_of(rest, pos, types_end_pos) matches Ok((info, _)) ==> chunk_info_left(
            rest,
            pos,
            types_end_pos,
        ) == info,
{
    if let Ok((_, sizes)) = long_7bit_of(rest) {
        lemma_longs_len(sizes, 8);
    }
}

proof fn lemma_file_header_left(
    rest: Seq<u8>,
    pos: int,
    path: Seq<char>,
    header: HeaderModel,
    hdiff_data_offset: i64,
)
    ensures
        non_single_of(rest, pos, path, header) matches Ok((whole, _)) ==> non_single_left(
            rest,
            pos,
            path,
            header,
        ) == whole,
        single_of(rest, pos, path, header, hdiff_data_offset) matches Ok((whole, _))
            ==> single_left(rest, pos, path, header, hdiff_data_offset) == whole,
{
    lemma_longs_len(rest, 2);
    lemma_longs_len(rest, 6);
    if let Ok((_, left)) = longs_of(rest, 2) {
        lemma_chunk_info_left(left, pos + rest.len() - left.len(), as_signed(pos));
    }
}

/// What is known of a patch whose header can be read whole is what the header says.
pub proof fn law_header_left_whole(data: Seq<u8>, pos: int, path: Seq<char>)
    ensures
        header_of(data, pos, path) matches Ok((_, header, info, _)) ==> header_left(
            data,
            pos,
            path,
        ) == (header, info),
{
    let rest = bytes_from(data, pos);
    if let Ok((line, after_line)) = string_to_null_of(rest) {
        if let Ok((is_dir, header)) = signature_of(line) {
            let line_end = pos + rest.len() - after_line.len();
            if is_dir {
                lemma_dir_header_left(data, line_end, path, header);
            } else {
                lemma_file_header_left(after_line, line_end, path, header, 0);
            }
        }
    }
}

proof fn lemma_dir_header_left(data: Seq<u8>, pos: int, path: Seq<char>, header: HeaderModel)
    ensures
        dir_header_of(data, pos, path, header) matches Ok((header1, info, _)) ==> dir_header_left(
            data,
            pos,
            path,
            header,
        ) == (header1, info),
{
    let rest = bytes_from(data, pos);
    if let Ok(((header, info), left)) = references_of(
        rest,
        pos,
        header,
        DataReferenceInfo::zero(),
    ) {
        let head_pos = pos + rest.len() - left.len() + checksums_size(info);
        if let Ok(placed) = places_of(info, head_pos, data.len() as int) {
            let offset = placed.hdiff_data_offset;
            let inner = bytes_from(data, offset as int);
            if let Ok((line, after_line)) = string_to_null_of(inner) {
                let parts = parts_of(line);
                let at = offset + inner.len() - after_line.len();
                lemma_file_header_left(
                    after_line,
                    at,
                    path,
                    HeaderModel { is_single_compressed_diff: true, ..header },
                    offset,
                );
                let comp_mode = if parts.len() > 1 && parts[1].len() > 0 {
                    compression_named(lowercase(parts[1]))->0
                } else {
                    header.comp_mode
                };
                lemma_file_header_left(
                    after_line,
                    at,
                    path,
                    HeaderModel {
                        is_single_compressed_diff: false,
                        comp_mode,
                        header_magic: parts[0],
                        ..header
                    },
                    offset,
                );
            }
        }
    }
}

} // verus!
