//! The laws on headers that are cut short: what was read before the end of the bytes is
//! known, and all else is as it was.
use crate::header::{chunk_info_of, counts_of, head_sizes_of, non_single_of, single_of};
use crate::parser::{long_7bit_of, longs_of};
use crate::partial_header::{
    chunk_info_left, counts_left, head_sizes_left, non_single_left, numbers_read, references_left,
    single_left,
};
use crate::structs::{DataReferenceInfo, DiffChunkInfo, DiffSingleChunkInfo, HeaderModel};
use crate::written::{
    law_boolean_read_back, law_short_number_read_back, law_signed_number_read_back, number, unsigned,
};
use crate::written_header::{file_numbers, lemma_no_tag, whole_numbers};
use crate::written_lists::{law_numbers_read_back, numbers_written};
use vstd::prelude::*;

verus! {

/// Whether no number can be read from some bytes, as they end before.
pub open spec fn is_cut(tail: Seq<u8>) -> bool {
    long_7bit_of(tail) is Err
}

/// Of the numbers that are asked for those are read that are written, where the bytes behind
/// them end before the next.
pub proof fn law_numbers_cut(list: Seq<i64>, tail: Seq<u8>, n: int)
    requires
        is_cut(tail),
        list.len() < n,
    ensures
        longs_of(numbers_written(list) + tail, n) is Err,
        numbers_read(numbers_written(list) + tail, n) == list,
    decreases n,
{
    let rest = numbers_written(list) + tail;
    law_numbers_read_back(list, tail);
    if n == list.len() + 1 {
        if list.len() == 0 {
            assert(list =~= Seq::empty());
        }
        assert(numbers_read(rest, list.len() as int) == list);
    } else {
        law_numbers_cut(list, tail, n - 1);
    }
}

/// A number of a list where it was read, and another where it was not.
pub open spec fn known(numbers: Seq<i64>, k: int, i: int, other: i64) -> i64 {
    if i < k {
        numbers[i]
    } else {
        other
    }
}

/// The chunks of a patch whose first `k` of 9 numbers can be read.
#[verifier::rlimit(40)]
proof fn lemma_chunks_cut(numbers: Seq<i64>, k: int, tail: Seq<u8>, pos: int, types_end_pos: i64)
    requires
        numbers.len() == 9,
        0 <= k < 9,
        is_cut(tail),
        0 <= pos,
        pos + numbers_written(numbers.take(1)).len() <= i64::MAX,
    ensures
        ({
            let rest = numbers_written(numbers.take(k)) + tail;
            &&& chunk_info_of(rest, pos, types_end_pos) is Err
            &&& chunk_info_left(rest, pos, types_end_pos) == (DiffChunkInfo {
                types_end_pos,
                cover_count: known(numbers, k, 0, 0),
                compress_size_begin_pos: if k > 0 {
                    (pos + numbers_written(numbers.take(1)).len()) as i64
                } else {
                    0
                },
                cover_buf_size: known(numbers, k, 1, 0),
                compress_cover_buf_size: known(numbers, k, 2, 0),
                rle_ctrl_buf_size: known(numbers, k, 3, 0),
                compress_rle_ctrl_buf_size: known(numbers, k, 4, 0),
                rle_code_buf_size: known(numbers, k, 5, 0),
                compress_rle_code_buf_size: known(numbers, k, 6, 0),
                new_data_diff_size: known(numbers, k, 7, 0),
                compress_new_data_diff_size: known(numbers, k, 8, 0),
                head_end_pos: 0,
                cover_end_pos: 0,
            })
        }),
{
    let rest = numbers_written(numbers.take(k)) + tail;
    if k == 0 {
        assert(rest =~= tail);
    } else {
        let one = numbers.take(1);
        let sizes = numbers.take(k).skip(1);
        let behind = numbers_written(sizes) + tail;
        lemma_first_number(numbers.take(k));
        assert(numbers_written(one) == number(unsigned(numbers[0] as int))) by {
            lemma_first_number(one);
            assert(one.skip(1) =~= Seq::empty());
            assert(numbers_written(one) =~= number(unsigned(numbers[0] as int)));
        }
        assert(rest =~= number(unsigned(numbers[0] as int)) + behind);
        law_signed_number_read_back(0, numbers[0], behind);
        law_numbers_cut(sizes, tail, 8);
    }
}

/// The numbers of a list with the first taken off, as they are written.
proof fn lemma_first_number(list: Seq<i64>)
    requires
        list.len() > 0,
    ensures
        numbers_written(list) == number(unsigned(list[0] as int)) + numbers_written(list.skip(1)),
    decreases list.len(),
{
    let others = list.skip(1);
    let first = number(unsigned(list[0] as int));
    if list.len() == 1 {
        assert(numbers_written(list.drop_last()) =~= Seq::<u8>::empty());
        assert(numbers_written(others) =~= Seq::<u8>::empty());
        assert(numbers_written(list) =~= first + numbers_written(others));
    } else {
        lemma_first_number(list.drop_last());
        assert(list.drop_last().skip(1) =~= others.drop_last());
        assert(others.last() == list.last());
        assert(numbers_written(list) =~= first + numbers_written(others));
    }
}

/// The numbers of a list in two parts, as they are written.
proof fn lemma_numbers_parted(list: Seq<i64>, i: int)
    requires
        0 <= i <= list.len(),
    ensures
        numbers_written(list) == numbers_written(list.take(i)) + numbers_written(list.skip(i)),
    decreases i,
{
    if i == 0 {
        assert(list.skip(0) =~= list);
        assert(numbers_written(list.take(0)) + numbers_written(list) =~= numbers_written(list));
    } else {
        lemma_numbers_parted(list, i - 1);
        lemma_first_number(list.skip(i - 1));
        assert(list.skip(i - 1).skip(1) =~= list.skip(i));
        assert(list.take(i).drop_last() =~= list.take(i - 1));
        assert(list.skip(i - 1)[0] == list.take(i).last());
        assert(numbers_written(list) =~= numbers_written(list.take(i)) + numbers_written(
            list.skip(i),
        ));
    }
}

/// Of the header of a patch whose parts are compressed apart that is cut behind its first `k`
/// numbers, these are known. What it says of the parts is not, until the two sizes are.
#[verifier::rlimit(40)]
pub proof fn law_file_header_cut(
    new_size: i64,
    old_size: i64,
    info: DiffChunkInfo,
    k: int,
    tail: Seq<u8>,
    pos: int,
    path: Seq<char>,
    header: HeaderModel,
)
    requires
        0 <= k < 11,
        is_cut(tail),
        0 <= pos,
        pos + numbers_written(file_numbers(new_size, old_size, info)).len() <= i64::MAX,
    ensures
        ({
            let numbers = file_numbers(new_size, old_size, info);
            let rest = numbers_written(numbers.take(k)) + tail;
            &&& non_single_of(rest, pos, path, header) is Err
            &&& non_single_left(rest, pos, path, header) == (HeaderModel {
                patch_path: path,
                new_data_size: known(numbers, k, 0, header.new_data_size),
                old_data_size: known(numbers, k, 1, header.old_data_size),
                chunk_info: if k < 2 {
                    header.chunk_info
                } else {
                    DiffChunkInfo {
                        types_end_pos: pos as i64,
                        cover_count: known(numbers, k, 2, 0),
                        compress_size_begin_pos: if k < 3 {
                            0
                        } else {
                            (pos + numbers_written(numbers.take(3)).len()) as i64
                        },
                        cover_buf_size: known(numbers, k, 3, 0),
                        compress_cover_buf_size: known(numbers, k, 4, 0),
                        rle_ctrl_buf_size: known(numbers, k, 5, 0),
                        compress_rle_ctrl_buf_size: known(numbers, k, 6, 0),
                        rle_code_buf_size: known(numbers, k, 7, 0),
                        compress_rle_code_buf_size: known(numbers, k, 8, 0),
                        new_data_diff_size: known(numbers, k, 9, 0),
                        compress_new_data_diff_size: known(numbers, k, 10, 0),
                        head_end_pos: 0,
                        cover_end_pos: 0,
                    }
                },
                ..header
            })
        }),
{
    let numbers = file_numbers(new_size, old_size, info);
    let rest = numbers_written(numbers.take(k)) + tail;
    if k < 2 {
        law_numbers_cut(numbers.take(k), tail, 2);
    } else {
        let sizes = numbers.take(2);
        let others = numbers.skip(2);
        let behind = numbers_written(others.take(k - 2)) + tail;
        lemma_numbers_parted(numbers.take(k), 2);
        assert(numbers.take(k).take(2) =~= sizes);
        assert(numbers.take(k).skip(2) =~= others.take(k - 2));
        assert(rest =~= numbers_written(sizes) + behind);
        law_numbers_read_back(sizes, behind);
        lemma_numbers_parted(numbers.take(3), 2);
        assert(numbers.take(3).take(2) =~= sizes);
        assert(numbers.take(3).skip(2) =~= others.take(1));
        lemma_numbers_parted(numbers, 3);
        lemma_chunks_cut(
            others,
            k - 2,
            tail,
            (pos + numbers_written(sizes).len()) as int,
            pos as i64,
        );
        assert(numbers_read(rest, 2) == sizes);
    }
}

/// Of the header of a patch which is compressed as a whole that is cut behind its first `k`
/// numbers, these are known.
pub proof fn law_whole_header_cut(
    new_size: i64,
    old_size: i64,
    cover_count: i64,
    step: i64,
    size: i64,
    compressed: i64,
    k: int,
    tail: Seq<u8>,
    pos: int,
    start: i64,
    path: Seq<char>,
    header: HeaderModel,
)
    requires
        0 <= k < 6,
        is_cut(tail),
    ensures
        ({
            let numbers = whole_numbers(new_size, old_size, cover_count, step, size, compressed);
            let rest = numbers_written(numbers.take(k)) + tail;
            &&& single_of(rest, pos, path, header, start) is Err
            &&& single_left(rest, pos, path, header, start) == (HeaderModel {
                patch_path: path,
                new_data_size: known(numbers, k, 0, header.new_data_size),
                old_data_size: known(numbers, k, 1, header.old_data_size),
                chunk_info: DiffChunkInfo {
                    cover_count: known(numbers, k, 2, header.chunk_info.cover_count),
                    ..header.chunk_info
                },
                step_mem_size: known(numbers, k, 3, header.step_mem_size),
                single_chunk_info: DiffSingleChunkInfo {
                    uncompressed_size: known(numbers, k, 4, 0),
                    compressed_size: known(numbers, k, 5, 0),
                    diff_data_pos: 0,
                },
                ..header
            })
        }),
{
    let numbers = whole_numbers(new_size, old_size, cover_count, step, size, compressed);
    law_numbers_cut(numbers.take(k), tail, 6);
}

/// The ten counts that come first in a directory patch.
pub open spec fn first_counts(info: DataReferenceInfo) -> Seq<i64> {
    seq![
        info.input_dir_count,
        info.input_sum_size,
        info.output_dir_count,
        info.output_sum_size,
        info.input_ref_file_count,
        info.input_ref_file_size,
        info.output_ref_file_count,
        info.output_ref_file_size,
        info.same_file_pair_count,
        info.same_file_size,
    ]
}

/// Of the counts of a directory patch that are cut behind the first `k` of ten, these are
/// known.
pub proof fn law_counts_cut(
    info: DataReferenceInfo,
    k: int,
    tail: Seq<u8>,
    before: DataReferenceInfo,
)
    requires
        0 <= k < 10,
        is_cut(tail),
    ensures
        ({
            let n = first_counts(info);
            let rest = numbers_written(n.take(k)) + tail;
            &&& counts_of(rest, before) is Err
            &&& counts_left(rest, before) == (DataReferenceInfo {
                input_dir_count: known(n, k, 0, before.input_dir_count),
                input_sum_size: known(n, k, 1, before.input_sum_size),
                output_dir_count: known(n, k, 2, before.output_dir_count),
                output_sum_size: known(n, k, 3, before.output_sum_size),
                input_ref_file_count: known(n, k, 4, before.input_ref_file_count),
                input_ref_file_size: known(n, k, 5, before.input_ref_file_size),
                output_ref_file_count: known(n, k, 6, before.output_ref_file_count),
                output_ref_file_size: known(n, k, 7, before.output_ref_file_size),
                same_file_pair_count: known(n, k, 8, before.same_file_pair_count),
                same_file_size: known(n, k, 9, before.same_file_size),
                ..before
            })
        }),
{
    law_numbers_cut(first_counts(info).take(k), tail, 10);
}

/// The three sizes that come last among the counts of a directory patch.
pub open spec fn last_counts(info: DataReferenceInfo) -> Seq<i64> {
    seq![
        info.private_reserved_data_size,
        info.private_extern_data_size,
        info.extern_data_size,
    ]
}

/// Of the counts of a directory patch that are cut behind the count of the executable files and
/// the first `k` of the last three, all up to there are known.
#[verifier::rlimit(40)]
pub proof fn law_last_counts_cut(
    info: DataReferenceInfo,
    k: int,
    tail: Seq<u8>,
    before: DataReferenceInfo,
)
    requires
        0 <= k < 3,
        is_cut(tail),
        0 <= info.new_execute_count < 65536,
    ensures
        ({
            let n = first_counts(info);
            let m = last_counts(info);
            let rest = numbers_written(n) + (number(info.new_execute_count as int) + (
            numbers_written(m.take(k)) + tail));
            &&& counts_of(rest, before) is Err
            &&& counts_left(rest, before) == (DataReferenceInfo {
                input_dir_count: info.input_dir_count,
                input_sum_size: info.input_sum_size,
                output_dir_count: info.output_dir_count,
                output_sum_size: info.output_sum_size,
                input_ref_file_count: info.input_ref_file_count,
                input_ref_file_size: info.input_ref_file_size,
                output_ref_file_count: info.output_ref_file_count,
                output_ref_file_size: info.output_ref_file_size,
                same_file_pair_count: info.same_file_pair_count,
                same_file_size: info.same_file_size,
                new_execute_count: info.new_execute_count,
                private_reserved_data_size: known(m, k, 0, before.private_reserved_data_size),
                private_extern_data_size: known(m, k, 1, before.private_extern_data_size),
                extern_data_size: known(m, k, 2, before.extern_data_size),
                ..before
            })
        }),
{
    let n = first_counts(info);
    let m = last_counts(info);
    let s3 = numbers_written(m.take(k)) + tail;
    let s2 = number(info.new_execute_count as int) + s3;
    law_numbers_read_back(n, s2);
    lemma_no_tag();
    law_short_number_read_back(0, 0, info.new_execute_count as int, s3);
    law_numbers_cut(m.take(k), tail, 3);
    assert(numbers_read(numbers_written(n) + s2, 10) == n);
}

/// Of the sizes of the head of a directory patch that are cut behind the first `k` of three,
/// these are known, and where they start.
pub proof fn law_head_sizes_cut(
    numbers: Seq<i64>,
    k: int,
    tail: Seq<u8>,
    pos: int,
    header: HeaderModel,
    before: DataReferenceInfo,
)
    requires
        numbers.len() == 3,
        0 <= k < 3,
        is_cut(tail),
        0 <= pos <= i64::MAX,
    ensures
        ({
            let rest = numbers_written(numbers.take(k)) + tail;
            &&& head_sizes_of(rest, pos, header, before) is Err
            &&& head_sizes_left(rest, pos, header, before) == (
                header,
                DataReferenceInfo {
                    compress_size_begin_pos: pos as i64,
                    head_data_size: known(numbers, k, 0, before.head_data_size),
                    head_data_compressed_size: known(
                        numbers,
                        k,
                        1,
                        before.head_data_compressed_size,
                    ),
                    ..before
                },
            )
        }),
{
    law_numbers_cut(numbers.take(k), tail, 3);
}

/// What stands between the signature of a directory patch and its checksums is known as far as
/// it goes: nothing where it is empty, the first truth value where there is no more, and both
/// before what is known of the counts.
pub proof fn law_references_cut(
    one: u8,
    two: u8,
    tail: Seq<u8>,
    pos: int,
    header: HeaderModel,
    before: DataReferenceInfo,
)
    requires
        counts_of(tail, before) is Err,
    ensures
        references_left(Seq::empty(), pos, header, before) == (header, before),
        references_left(seq![one], pos, header, before) == (
            HeaderModel { is_input_dir: one > 0, ..header },
            before,
        ),
        references_left(seq![one, two] + tail, pos, header, before) == (
            HeaderModel { is_input_dir: one > 0, is_output_dir: two > 0, ..header },
            counts_left(tail, before),
        ),
{
    let none = Seq::<u8>::empty();
    law_boolean_read_back(one, none);
    assert(seq![one] + none =~= seq![one]);
    law_boolean_read_back(one, seq![two] + tail);
    law_boolean_read_back(two, tail);
    assert(seq![one, two] + tail =~= seq![one] + (seq![two] + tail));
}

/// The checksum size is the last byte of the number that is written for it, whatever stands
/// before that byte.
pub proof fn law_checksum_size(
    size: i64,
    compressed: i64,
    above: int,
    byte: u8,
    pos: int,
    header: HeaderModel,
    before: DataReferenceInfo,
    rest: Seq<u8>,
)
    requires
        0 <= above,
        above * 256 + byte <= i64::MAX,
    ensures
        head_sizes_of(
            numbers_written(seq![size, compressed, (above * 256 + byte) as i64]) + rest,
            pos,
            header,
            before,
        ) matches Ok(((found, info), left)) && {
            &&& info.checksum_byte_size == byte
            &&& info.head_data_size == size
            &&& info.head_data_compressed_size == compressed
            &&& left == rest
        },
{
    let numbers = seq![size, compressed, (above * 256 + byte) as i64];
    law_numbers_read_back(numbers, rest);
    assert((above * 256 + byte) % 256 == byte);
}

} // verus!
